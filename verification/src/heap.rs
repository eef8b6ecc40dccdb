//! The allocator value: the heap list with its search, its growth and the
//! bytes of its regions.

use vstd::prelude::*;
use crate::block::{Block, BlockMeta, BRK_FAILED, HEADER_SIZE};
use crate::chain::{
    block_end, can_copy, claimed, copied, copy_prefix, first_fit, fresh_block, grant_usable, grown,
    growth, head, is_block_of, is_first_fit, last_visited, lemma_first_fit_none, lemma_grown_valid,
    lemma_locate_is, lemma_with_data_valid, lemma_with_flag_valid, loaded, loaned, locate, position,
    stored, top, valid_chain, with_data, with_flag, zero_prefix, zeroed,
};

verus! {

/// A header with its place in the address space and the offset of its region
/// in the arena.
#[derive(Clone, Copy)]
struct Slot {
    addr: usize,
    meta: BlockMeta,
    start: usize,
}

/// The heap: the head reference, the chain of headers in the order in which
/// they were carved, and the arena that holds the bytes of every region.
///
/// One value serves one heap. Every operation takes it by `&mut`, so a heap
/// shared between threads has to sit behind one lock that is held for the
/// whole operation.
pub struct BasicAllocator {
    base: usize,
    slots: Vec<Slot>,
    arena: Vec<u8>,
}

impl View for BasicAllocator {
    type V = Seq<Block>;

    /// The chain, head first.
    closed spec fn view(&self) -> Seq<Block> {
        Seq::new(self.slots@.len(), |i: int| self.block_at(i))
    }
}

/// Appends `n` zero bytes to `bytes`.
fn push_zeros(bytes: &mut Vec<u8>, n: usize)
    ensures
        final(bytes)@ == old(bytes)@ + Seq::new(n as nat, |k: int| 0u8),
{
    let ghost before = bytes@;
    let mut done: usize = 0;
    while done < n
        invariant
            done <= n,
            bytes@ == before + Seq::new(done as nat, |k: int| 0u8),
        decreases n - done,
    {
        bytes.push(0u8);
        done = done + 1;
    }
}

impl BasicAllocator {
    spec fn block_at(&self, i: int) -> Block {
        let slot = self.slots@[i];
        Block {
            addr: slot.addr,
            meta: slot.meta,
            data: self.arena@.subrange(slot.start as int, slot.start + slot.meta.size),
        }
    }

    /// The value is a heap: its chain is valid, the head reference is bound to
    /// the first header, and the regions lie in the arena without overlap.
    pub closed spec fn wf(&self) -> bool {
        &&& valid_chain(self@)
        &&& self.base == head(self@)
        &&& forall|i: int|
            0 <= i < self.slots@.len() ==> (#[trigger] self.slots@[i]).start
                + self.slots@[i].meta.size <= self.arena@.len()
        &&& forall|i: int, j: int|
            0 <= i < j < self.slots@.len() ==> (#[trigger] self.slots@[i]).start
                + self.slots@[i].meta.size <= (#[trigger] self.slots@[j]).start
    }

    /// The chain of a heap is valid.
    pub proof fn lemma_wf_valid(&self)
        requires
            self.wf(),
        ensures
            valid_chain(self@),
    {
    }

    /// A heap without blocks. The head reference is unset.
    pub fn new() -> (heap: Self)
        ensures
            heap.wf(),
            heap@ == Seq::<Block>::empty(),
    {
        BasicAllocator { base: 0, slots: Vec::new(), arena: Vec::new() }
    }

    /// The head reference: the address of the first header, 0 before the
    /// first growth.
    pub fn base(&self) -> (addr: usize)
        requires
            self.wf(),
        ensures
            addr == head(self@),
    {
        self.base
    }

    /// The number of blocks carved so far.
    pub fn len(&self) -> (n: usize)
        ensures
            n == self@.len(),
    {
        self.slots.len()
    }

    /// The address and the header of the block at position `i`.
    pub fn header(&self, i: usize) -> (at: Option<(usize, BlockMeta)>)
        ensures
            at == (if i < self@.len() {
                Some((self@[i as int].addr, self@[i as int].meta))
            } else {
                None
            }),
    {
        if i < self.slots.len() {
            Some((self.slots[i].addr, self.slots[i].meta))
        } else {
            None
        }
    }

    /// First-fit search from the head: the position of the first free block of
    /// at least `size` bytes, and the position of the last header visited.
    pub fn find_free_block(&self, size: usize) -> (found: (Option<usize>, Option<usize>))
        ensures
            position(found.0) == first_fit(self@, size),
            position(found.1) == last_visited(self@, size),
    {
        let mut current: usize = 0;
        let mut last: Option<usize> = None;
        while current < self.slots.len()
            invariant
                current <= self.slots@.len(),
                forall|j: int| 0 <= j < current ==> !(#[trigger] self@[j]).meta.fits(size),
                position(last) == (if current == 0 {
                    None
                } else {
                    Some(current - 1)
                }),
            decreases self.slots@.len() - current,
        {
            last = Some(current);
            let meta = self.slots[current].meta;
            if meta.is_free && meta.size >= size {
                assert(is_first_fit(self@, size, current as int));
                return (Some(current), last);
            }
            current = current + 1;
        }
        (None, last)
    }

    /// The number of bytes to ask the heap-extension primitive for before a
    /// request for `size` bytes, or `None` where it is not to be asked.
    pub fn growth_needed(&self, size: usize) -> (delta: Option<isize>)
        ensures
            delta == growth(self@, size),
    {
        let (found, _) = self.find_free_block(size);
        if found.is_none() {
            BlockMeta::space_needed(size)
        } else {
            None
        }
    }

    /// The first address behind the last block, 0 while there is none.
    fn heap_top(&self) -> (end: usize)
        requires
            self.wf(),
        ensures
            end == top(self@),
    {
        let n = self.slots.len();
        if n == 0 {
            0
        } else {
            let slot = self.slots[n - 1];
            assert(block_end(self@[n - 1]) <= usize::MAX);
            slot.addr + HEADER_SIZE + slot.meta.size
        }
    }

    /// Turns the answer `brk` of the heap-extension primitive to a request for
    /// a block of `size` bytes into the header of that block and its address.
    /// There is none where the primitive failed or the grant cannot be used.
    pub fn request_space(&self, size: usize, brk: usize) -> (block: Option<(usize, BlockMeta)>)
        requires
            self.wf(),
        ensures
            block == (if grant_usable(self@, size, brk) {
                Some((fresh_block(size, brk).addr, fresh_block(size, brk).meta))
            } else {
                None
            }),
    {
        if brk == BRK_FAILED || brk == 0 {
            return None;
        }
        if BlockMeta::space_needed(size).is_none() {
            return None;
        }
        if brk > usize::MAX - HEADER_SIZE - size {
            return None;
        }
        if brk < self.heap_top() {
            return None;
        }
        Some((brk, BlockMeta { size, is_free: false, next: 0 }))
    }

    /// Sets the occupancy flag of the block at position `i`.
    pub(crate) fn set_free(&mut self, i: usize, is_free: bool)
        requires
            old(self).wf(),
            i < old(self)@.len(),
        ensures
            final(self).wf(),
            final(self)@ == with_flag(old(self)@, i as int, is_free),
    {
        let slot = self.slots[i];
        self.slots.set(i, Slot { meta: BlockMeta { is_free, ..slot.meta }, ..slot });
        proof {
            lemma_with_flag_valid(old(self)@, i as int, is_free);
            assert(self@ =~= with_flag(old(self)@, i as int, is_free));
        }
    }

    /// Writes a header into granted space: the header joins the chain behind
    /// the last one, and its region joins the arena, reading as zero. Links
    /// and head reference are left to the caller.
    fn place(&mut self, addr: usize, meta: BlockMeta)
        ensures
            final(self).base == old(self).base,
            final(self).slots@ == old(self).slots@.push(
                Slot { addr, meta, start: old(self).arena@.len() as usize },
            ),
            final(self).arena@ == old(self).arena@ + Seq::new(meta.size as nat, |k: int| 0u8),
            old(self).arena@.len() <= usize::MAX,
    {
        let start = self.arena.len();
        push_zeros(&mut self.arena, meta.size);
        self.slots.push(Slot { addr, meta, start });
    }

    /// The headers after a block was placed at `brk`: the last header, if
    /// there is one, links to it.
    spec fn linked(slots: Seq<Slot>, brk: usize) -> Seq<Slot> {
        if slots.len() == 0 {
            slots
        } else {
            let last = slots.len() - 1;
            slots.update(last, Slot { meta: BlockMeta { next: brk, ..slots[last].meta }, ..slots[last] })
        }
    }

    /// A heap that got a linked block on a usable grant is the grown heap.
    proof fn lemma_placed(before: Self, after: Self, size: usize, brk: usize)
        requires
            before.wf(),
            grant_usable(before@, size, brk),
            before.arena@.len() <= usize::MAX,
            after.arena@ == before.arena@ + Seq::new(size as nat, |k: int| 0u8),
            after.slots@ == Self::linked(before.slots@, brk).push(
                Slot {
                    addr: brk,
                    meta: fresh_block(size, brk).meta,
                    start: before.arena@.len() as usize,
                },
            ),
            after.base == (if before.slots@.len() == 0 {
                brk
            } else {
                before.base
            }),
        ensures
            after.wf(),
            after@ == grown(before@, size, brk),
    {
        let goal = grown(before@, size, brk);
        let n = before@.len() as int;
        lemma_grown_valid(before@, size, brk);
        assert(after@.len() == n + 1);
        assert forall|j: int| 0 <= j < n + 1 implies after@[j] =~= goal[j] by {
            if j < n {
                assert(before.slots@[j].start + before.slots@[j].meta.size <= before.arena@.len());
                assert(after.slots@[j].start == before.slots@[j].start);
                assert(after.slots@[j].meta.size == before.slots@[j].meta.size);
                assert(after@[j].data =~= before@[j].data);
            } else {
                assert(after@[j].data =~= fresh_block(size, brk).data);
            }
        }
        assert(after@ =~= goal);
        assert forall|i: int| 0 <= i < after.slots@.len() implies (#[trigger] after.slots@[i]).start
            + after.slots@[i].meta.size <= after.arena@.len() by {
            if i < n {
                assert(before.slots@[i].start + before.slots@[i].meta.size <= before.arena@.len());
            }
        }
        assert forall|i: int, j: int| 0 <= i < j < after.slots@.len() implies (
        #[trigger] after.slots@[i]).start + after.slots@[i].meta.size <= (
        #[trigger] after.slots@[j]).start by {
            if j < n {
                assert(before.slots@[i].start + before.slots@[i].meta.size
                    <= before.slots@[j].start);
            } else {
                assert(before.slots@[i].start + before.slots@[i].meta.size <= before.arena@.len());
            }
        }
    }

    /// Binds the head reference to a first block placed at `addr`.
    fn bind_head(&mut self, addr: usize, meta: BlockMeta)
        requires
            old(self).wf(),
            old(self)@.len() == 0,
            grant_usable(old(self)@, meta.size, addr),
            meta == fresh_block(meta.size, addr).meta,
        ensures
            final(self).wf(),
            final(self)@ == grown(old(self)@, meta.size, addr),
    {
        self.place(addr, meta);
        self.base = addr;
        proof {
            Self::lemma_placed(*old(self), *self, meta.size, addr);
        }
    }

    /// Links a block placed at `addr` behind the header at `tail`, the last
    /// of the chain.
    fn link_behind(&mut self, tail: usize, addr: usize, meta: BlockMeta)
        requires
            old(self).wf(),
            tail + 1 == old(self)@.len(),
            grant_usable(old(self)@, meta.size, addr),
            meta == fresh_block(meta.size, addr).meta,
        ensures
            final(self).wf(),
            final(self)@ == grown(old(self)@, meta.size, addr),
    {
        let slot = self.slots[tail];
        self.slots.set(tail, Slot { meta: BlockMeta { next: addr, ..slot.meta }, ..slot });
        self.place(addr, meta);
        proof {
            Self::lemma_placed(*old(self), *self, meta.size, addr);
        }
    }

    /// Claims a block for `size` bytes. `brk` is what the heap-extension
    /// primitive answered when asked for `growth_needed(size)` bytes, or
    /// `BRK_FAILED` where it was not asked.
    ///
    /// Before the first growth the head reference is unset: the grant becomes
    /// the first block and the head reference is bound to it. Afterwards the
    /// first free block that is large enough is taken whole; without one the
    /// grant becomes a new block linked behind the last header visited. Where
    /// neither is to be had the heap is left as it was.
    pub fn claim_block(&mut self, size: usize, brk: usize) -> (block: Option<usize>)
        requires
            old(self).wf(),
        ensures
            final(self).wf(),
            (final(self)@, position(block)) == claimed(old(self)@, size, brk),
    {
        proof {
            lemma_first_fit_none(self@, size);
        }
        if self.base == 0 {
            assert(self@.len() == 0) by {
                if self@.len() > 0 {
                    assert(self@[0].addr != 0);
                }
            }
            match self.request_space(size, brk) {
                None => None,
                Some((addr, meta)) => {
                    self.bind_head(addr, meta);
                    Some(0)
                },
            }
        } else {
            let (block, last) = self.find_free_block(size);
            match block {
                Some(i) => {
                    self.set_free(i, false);
                    Some(i)
                },
                None => match self.request_space(size, brk) {
                    None => None,
                    Some((addr, meta)) => {
                        let tail = last.unwrap();
                        let count = self.slots.len();
                        self.link_behind(tail, addr, meta);
                        Some(count)
                    },
                },
            }
        }
    }

    /// The position of the block whose region starts at `ptr`.
    pub fn block_of(&self, ptr: usize) -> (at: Option<usize>)
        requires
            self.wf(),
        ensures
            position(at) == locate(self@, ptr),
    {
        if ptr < HEADER_SIZE {
            assert(locate(self@, ptr).is_none()) by {
                if exists|i: int| is_block_of(self@, ptr, i) {
                    let i = choose|i: int| is_block_of(self@, ptr, i);
                    assert(is_block_of(self@, ptr, i));
                }
            }
            return None;
        }
        let header = BlockMeta::get_meta_ptr(ptr);
        let mut current: usize = 0;
        while current < self.slots.len()
            invariant
                current <= self.slots@.len(),
                self.wf(),
                header + HEADER_SIZE == ptr,
                forall|j: int| 0 <= j < current ==> !is_block_of(self@, ptr, j),
            decreases self.slots@.len() - current,
        {
            if self.slots[current].addr == header {
                proof {
                    lemma_locate_is(self@, ptr, current as int);
                }
                return Some(current);
            }
            current = current + 1;
        }
        None
    }

    /// The position of the block on loan at `ptr`.
    pub fn loan_of(&self, ptr: usize) -> (at: Option<usize>)
        requires
            self.wf(),
        ensures
            position(at) == loaned(self@, ptr),
    {
        match self.block_of(ptr) {
            Some(i) => if self.slots[i].meta.is_free {
                None
            } else {
                Some(i)
            },
            None => None,
        }
    }

    /// Reads the byte at `offset` of the region on loan at `ptr`.
    pub fn load(&self, ptr: usize, offset: usize) -> (byte: Option<u8>)
        requires
            self.wf(),
        ensures
            byte == loaded(self@, ptr, offset),
    {
        match self.loan_of(ptr) {
            Some(i) => {
                let slot = self.slots[i];
                if offset < slot.meta.size {
                    let total = self.arena.len();
                    assert(slot.start + slot.meta.size <= total) by {
                        assert(self.slots@[i as int] == slot);
                    }
                    Some(self.arena[slot.start + offset])
                } else {
                    None
                }
            },
            None => None,
        }
    }

    /// A heap whose arena changed inside the region of block `i` alone is the
    /// heap with that region replaced.
    proof fn lemma_region_changed(before: Self, after: Self, i: int, data: Seq<u8>)
        requires
            before.wf(),
            0 <= i < before@.len(),
            after.base == before.base,
            after.slots == before.slots,
            after.arena@.len() == before.arena@.len(),
            data.len() == before.slots@[i].meta.size,
            forall|k: int|
                0 <= k < before.arena@.len() ==> after.arena@[k] == (if before.slots@[i].start <= k
                    < before.slots@[i].start + data.len() {
                    data[k - before.slots@[i].start]
                } else {
                    before.arena@[k]
                }),
        ensures
            after.wf(),
            after@ == with_data(before@, i, data),
    {
        let goal = with_data(before@, i, data);
        assert(before.slots@[i].start + before.slots@[i].meta.size <= before.arena@.len());
        assert forall|j: int| 0 <= j < after@.len() implies after@[j] =~= goal[j] by {
            assert(before.slots@[j].start + before.slots@[j].meta.size <= before.arena@.len());
            if j < i {
                assert(before.slots@[j].start + before.slots@[j].meta.size
                    <= before.slots@[i].start);
            } else if j > i {
                assert(before.slots@[i].start + before.slots@[i].meta.size
                    <= before.slots@[j].start);
            }
        }
        assert(after@ =~= goal);
        lemma_with_data_valid(before@, i, data);
    }

    /// Writes `value` at `offset` of the region on loan at `ptr`, and says
    /// whether such a byte was there to write.
    pub fn store(&mut self, ptr: usize, offset: usize, value: u8) -> (written: bool)
        requires
            old(self).wf(),
        ensures
            final(self).wf(),
            final(self)@ == stored(old(self)@, ptr, offset, value),
            written == loaded(old(self)@, ptr, offset).is_some(),
    {
        match self.loan_of(ptr) {
            Some(i) => {
                let slot = self.slots[i];
                if offset < slot.meta.size {
                    let total = self.arena.len();
                    assert(slot.start + slot.meta.size <= total) by {
                        assert(self.slots@[i as int] == slot);
                    }
                    self.arena.set(slot.start + offset, value);
                    proof {
                        let data = old(self)@[i as int].data.update(offset as int, value);
                        Self::lemma_region_changed(*old(self), *self, i as int, data);
                    }
                    true
                } else {
                    false
                }
            },
            None => false,
        }
    }

    /// Sets the first `n` bytes of the region on loan at `ptr` to zero, and
    /// says whether a region of at least `n` bytes was on loan there.
    pub fn zero(&mut self, ptr: usize, n: usize) -> (done: bool)
        requires
            old(self).wf(),
        ensures
            final(self).wf(),
            final(self)@ == zeroed(old(self)@, ptr, n),
            done == (loaned(old(self)@, ptr) matches Some(i) && n <= old(self)@[i].meta.size),
    {
        let i = match self.loan_of(ptr) {
            Some(i) => i,
            None => {
                return false;
            },
        };
        let slot = self.slots[i];
        if n > slot.meta.size {
            return false;
        }
        let total = self.arena.len();
        assert(slot.start + slot.meta.size <= total) by {
            assert(self.slots@[i as int] == slot);
        }
        let ghost before = self.arena@;
        let mut k: usize = 0;
        while k < n
            invariant
                k <= n,
                slot.start + n <= total,
                self.arena@.len() == total,
                before.len() == total,
                self.slots == old(self).slots,
                self.base == old(self).base,
                forall|j: int|
                    0 <= j < total ==> self.arena@[j] == (if slot.start <= j < slot.start + k {
                        0u8
                    } else {
                        before[j]
                    }),
            decreases n - k,
        {
            self.arena.set(slot.start + k, 0u8);
            k = k + 1;
        }
        proof {
            let data = zero_prefix(old(self)@[i as int].data, n as int);
            Self::lemma_region_changed(*old(self), *self, i as int, data);
        }
        true
    }

    /// Copies the first `n` bytes of the region on loan at `src` to the front
    /// of the region on loan at `dst`, and says whether it did: the two have
    /// to be different regions of at least `n` bytes each.
    pub fn copy(&mut self, dst: usize, src: usize, n: usize) -> (done: bool)
        requires
            old(self).wf(),
        ensures
            final(self).wf(),
            final(self)@ == copied(old(self)@, dst, src, n),
            done == can_copy(old(self)@, dst, src, n),
    {
        let d = match self.loan_of(dst) {
            Some(d) => d,
            None => {
                return false;
            },
        };
        let s = match self.loan_of(src) {
            Some(s) => s,
            None => {
                return false;
            },
        };
        let to = self.slots[d];
        let from = self.slots[s];
        if d == s || n > to.meta.size || n > from.meta.size {
            return false;
        }
        let total = self.arena.len();
        assert(to.start + to.meta.size <= total && from.start + from.meta.size <= total) by {
            assert(self.slots@[d as int] == to);
            assert(self.slots@[s as int] == from);
        }
        assert(to.start + to.meta.size <= from.start || from.start + from.meta.size <= to.start) by {
            if d < s {
                assert(self.slots@[d as int].start + self.slots@[d as int].meta.size
                    <= self.slots@[s as int].start);
            } else {
                assert(self.slots@[s as int].start + self.slots@[s as int].meta.size
                    <= self.slots@[d as int].start);
            }
        }
        let ghost before = self.arena@;
        let mut k: usize = 0;
        while k < n
            invariant
                k <= n,
                to.start + n <= total,
                from.start + n <= total,
                to.start + n <= from.start || from.start + n <= to.start,
                self.arena@.len() == total,
                before.len() == total,
                self.slots == old(self).slots,
                self.base == old(self).base,
                forall|j: int|
                    0 <= j < total ==> self.arena@[j] == (if to.start <= j < to.start + k {
                        before[j - to.start + from.start]
                    } else {
                        before[j]
                    }),
            decreases n - k,
        {
            let byte = self.arena[from.start + k];
            self.arena.set(to.start + k, byte);
            k = k + 1;
        }
        proof {
            let data = copy_prefix(old(self)@[d as int].data, old(self)@[s as int].data, n as int);
            Self::lemma_region_changed(*old(self), *self, d as int, data);
        }
        true
    }
}

} // verus!
