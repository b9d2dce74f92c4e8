//! A single backing block: one contiguous byte buffer plus a bump cursor.

use vstd::prelude::*;
use crate::layout::AllocErr;
use crate::layout::Layout;
use crate::layout::CannotReallocInPlace;
use crate::layout::MAX_OBJECT_SIZE;
use crate::layout::align_padding;
use crate::layout::check_layout;
use crate::layout::is_aligned;
use crate::layout::lemma_align_padding;
use crate::layout::spec_align_padding;

verus! {

/// The mathematical state of a block: its base address, its bump cursor
/// (the used length), and the bytes of its buffer. The capacity is the
/// length of `bytes`.
pub ghost struct BlockModel {
    pub base: int,
    pub len: int,
    pub bytes: Seq<u8>,
}

impl BlockModel {
    /// The capacity of the backing buffer, in bytes.
    pub open spec fn cap(self) -> int {
        self.bytes.len() as int
    }

    /// One past the last address of the buffer.
    pub open spec fn end(self) -> int {
        self.base + self.cap()
    }

    /// The cursor stays inside the buffer and the buffer's address range
    /// fits in the address space.
    pub open spec fn wf(self) -> bool {
        &&& 0 <= self.base
        &&& 0 <= self.len <= self.cap()
        &&& self.base + self.cap() <= usize::MAX
    }
}

/// A buffer of `cap` zero bytes starting at `base`, with the cursor at 0.
pub open spec fn zero_block(base: int, cap: int) -> BlockModel {
    BlockModel { base, len: 0, bytes: Seq::new(cap as nat, |i: int| 0u8) }
}

/// The padding a request needs in front of the cursor of `b`.
pub open spec fn block_alloc_pad(b: BlockModel, layout: Layout) -> int {
    spec_align_padding(b.base + b.len, layout.align as int)
}

/// Whether the free space of `b` can hold the request plus its padding.
pub open spec fn block_fits(b: BlockModel, layout: Layout) -> bool {
    layout.size + block_alloc_pad(b, layout) <= b.cap() - b.len
}

/// The offset at which a successful allocation from `b` is placed.
pub open spec fn block_alloc_offset(b: BlockModel, layout: Layout) -> int {
    b.len + block_alloc_pad(b, layout)
}

/// The state of `b` after a successful allocation: only the cursor moves.
pub open spec fn block_bump(b: BlockModel, layout: Layout) -> BlockModel {
    BlockModel { len: b.len + block_alloc_pad(b, layout) + layout.size, ..b }
}

/// The head allocation of a block is the one that abuts the bump cursor:
/// its address range ends exactly at `base + len` and starts inside the
/// block. Only the head allocation can be resized in place.
pub open spec fn spec_is_head(b: BlockModel, addr: int, size: int) -> bool {
    b.base <= addr && addr + size == b.base + b.len
}

/// In-place resize is offered exactly when the allocation is the head and
/// its address already satisfies the requested alignment.
pub open spec fn can_resize_in_place(b: BlockModel, addr: int, size: int, align: int) -> bool {
    spec_is_head(b, addr, size) && addr % align == 0
}

/// One backing block: an owned byte buffer, the address its first byte
/// stands at, and the bump cursor separating used from free space.
pub struct OwnedArenaBlock {
    base: usize,
    data: Vec<u8>,
    len: usize,
}

impl View for OwnedArenaBlock {
    type V = BlockModel;

    closed spec fn view(&self) -> BlockModel {
        BlockModel { base: self.base as int, len: self.len as int, bytes: self.data@ }
    }
}

impl OwnedArenaBlock {
    /// Creates a block of the given capacity at address 0. Creation of the
    /// backing buffer does not fail in this model, but the result is kept
    /// behind `Result` because buffer creation is fallible at the interface.
    pub fn with_capacity(size: usize) -> (r: Result<OwnedArenaBlock, AllocErr>)
        ensures
            r is Ok,
            r matches Ok(b) ==> b@ == zero_block(0, size as int) && b@.wf(),
    {
        Ok(Self::with_capacity_at(0, size))
    }

    /// Creates a zero-filled block of the given capacity whose buffer
    /// starts at `base`.
    pub(crate) fn with_capacity_at(base: usize, capacity: usize) -> (r: OwnedArenaBlock)
        requires
            base + capacity <= usize::MAX,
        ensures
            r@ == zero_block(base as int, capacity as int),
            r@.wf(),
    {
        let mut data: Vec<u8> = Vec::new();
        while data.len() < capacity
            invariant
                data@.len() <= capacity,
                forall|i: int| 0 <= i < data@.len() ==> data@[i] == 0u8,
            decreases capacity - data@.len(),
        {
            data.push(0u8);
        }
        proof {
            assert(data@ =~= Seq::new(capacity as nat, |i: int| 0u8));
        }
        OwnedArenaBlock { base, data, len: 0 }
    }

    /// The capacity of the backing buffer.
    pub fn capacity(&self) -> (r: usize)
        ensures
            r == self@.cap(),
    {
        self.data.len()
    }

    /// The bump cursor: the number of used bytes.
    pub fn used_len(&self) -> (r: usize)
        ensures
            r == self@.len,
    {
        self.len
    }

    /// The address of the buffer's first byte.
    pub fn base_addr(&self) -> (r: usize)
        ensures
            r == self@.base,
    {
        self.base
    }

    /// Moves the bump cursor, reclaiming or reserving bytes in bulk.
    pub(crate) fn set_len(&mut self, new_len: usize)
        requires
            new_len <= old(self)@.cap(),
        ensures
            final(self)@ == (BlockModel { len: new_len as int, ..old(self)@ }),
    {
        self.len = new_len;
    }

    /// Whether an allocation of `size` bytes at `addr` is the head
    /// allocation of this block.
    pub fn is_head(&self, addr: usize, size: usize) -> (r: bool)
        requires
            self@.wf(),
        ensures
            r == spec_is_head(self@, addr as int, size as int),
    {
        addr >= self.base && addr <= usize::MAX - size && addr + size == self.base + self.len
    }

    /// Reserves `increment` more used bytes. Succeeds exactly when the free
    /// space suffices: the backing buffer's capacity is fixed at creation,
    /// so exhaustion is reported to the owner, which falls back to a fresh
    /// block.
    pub(crate) fn reserve(&mut self, increment: usize, request: Layout) -> (r: Result<
        (),
        AllocErr,
    >)
        requires
            old(self)@.wf(),
        ensures
            final(self)@.wf(),
            increment <= old(self)@.cap() - old(self)@.len ==> r is Ok && final(self)@ == (BlockModel {
                len: old(self)@.len + increment,
                ..old(self)@
            }),
            increment > old(self)@.cap() - old(self)@.len ==> r == Err::<(), AllocErr>(
                AllocErr::Exhausted { request },
            ) && final(self)@ == old(self)@,
    {
        if increment <= self.data.len() - self.len {
            self.len = self.len + increment;
            Ok(())
        } else {
            Err(AllocErr::Exhausted { request })
        }
    }

    /// Bump-allocates from this block. On success returns the offset of the
    /// new allocation, whose address `base + offset` satisfies the
    /// requested alignment; only the cursor moves. On failure the block is
    /// untouched.
    pub fn allocate(&mut self, layout: Layout) -> (r: Result<usize, AllocErr>)
        requires
            old(self)@.wf(),
            layout.wf(),
        ensures
            final(self)@.wf(),
            layout.size > MAX_OBJECT_SIZE ==> r == Err::<usize, AllocErr>(AllocErr::Unsupported)
                && final(self)@ == old(self)@,
            layout.size <= MAX_OBJECT_SIZE && block_fits(old(self)@, layout) ==> {
                &&& r == Ok::<usize, AllocErr>(block_alloc_offset(old(self)@, layout) as usize)
                &&& final(self)@ == block_bump(old(self)@, layout)
                &&& (old(self)@.base + block_alloc_offset(old(self)@, layout)) % (
                layout.align as int) == 0
            },
            layout.size <= MAX_OBJECT_SIZE && !block_fits(old(self)@, layout) ==> r == Err::<
                usize,
                AllocErr,
            >(AllocErr::Exhausted { request: layout }) && final(self)@ == old(self)@,
    {
        match check_layout(layout) {
            Err(e) => { return Err(e); },
            Ok(()) => {},
        }
        let padding = align_padding(self.base + self.len, layout.align);
        if layout.size > usize::MAX - padding {
            return Err(AllocErr::Exhausted { request: layout });
        }
        let increment = layout.size + padding;
        match self.reserve(increment, layout) {
            Ok(()) => {
                let offset = self.len - layout.size;
                proof {
                    lemma_align_padding(old(self)@.base + old(self)@.len, layout.align as int);
                }
                Ok(offset)
            },
            Err(e) => Err(e),
        }
    }

    /// Individual deallocation is deliberately untracked: memory is only
    /// reclaimed in bulk by the owner's scope reset.
    pub fn deallocate(&mut self, _addr: usize, _layout: Layout)
        ensures
            final(self)@ == old(self)@,
    {
    }

    /// Grows the head allocation in place. Offered exactly when the target
    /// is the head allocation, its address satisfies the new alignment, and
    /// the free space can hold the extra bytes; the operation then only
    /// moves the cursor and never copies memory.
    pub fn grow_in_place(&mut self, addr: usize, old_layout: Layout, new_layout: Layout) -> (r:
        Result<(), CannotReallocInPlace>)
        requires
            old(self)@.wf(),
            new_layout.wf(),
            new_layout.size >= old_layout.size,
        ensures
            final(self)@.wf(),
            ({
                let ok_cond = can_resize_in_place(
                    old(self)@,
                    addr as int,
                    old_layout.size as int,
                    new_layout.align as int,
                ) && new_layout.size - old_layout.size <= old(self)@.cap() - old(self)@.len;
                &&& (r is Ok <==> ok_cond)
                &&& (r is Ok ==> final(self)@ == (BlockModel {
                    len: old(self)@.len + (new_layout.size - old_layout.size),
                    ..old(self)@
                }))
                &&& (r is Err ==> final(self)@ == old(self)@)
            }),
    {
        if self.is_head(addr, old_layout.size) && is_aligned(addr, new_layout.align) {
            match self.reserve(new_layout.size - old_layout.size, new_layout) {
                Ok(()) => Ok(()),
                Err(_) => Err(CannotReallocInPlace),
            }
        } else {
            Err(CannotReallocInPlace)
        }
    }

    /// Shrinks the head allocation in place, by the identical eligibility
    /// rule as growing: head allocation and already-satisfied alignment.
    /// Only the cursor moves.
    pub fn shrink_in_place(&mut self, addr: usize, old_layout: Layout, new_layout: Layout) -> (r:
        Result<(), CannotReallocInPlace>)
        requires
            old(self)@.wf(),
            new_layout.wf(),
            new_layout.size <= old_layout.size,
        ensures
            final(self)@.wf(),
            ({
                let ok_cond = can_resize_in_place(
                    old(self)@,
                    addr as int,
                    old_layout.size as int,
                    new_layout.align as int,
                );
                &&& (r is Ok <==> ok_cond)
                &&& (r is Ok ==> final(self)@ == (BlockModel {
                    len: old(self)@.len - old_layout.size + new_layout.size,
                    ..old(self)@
                }))
                &&& (r is Err ==> final(self)@ == old(self)@)
            }),
    {
        if self.is_head(addr, old_layout.size) && is_aligned(addr, new_layout.align) {
            self.len = self.len - old_layout.size + new_layout.size;
            Ok(())
        } else {
            Err(CannotReallocInPlace)
        }
    }

    /// Reads one byte of the buffer.
    pub fn read_byte(&self, i: usize) -> (r: u8)
        requires
            i < self@.cap(),
        ensures
            r == self@.bytes[i as int],
    {
        self.data[i]
    }

    /// Writes one byte of the buffer.
    pub fn write_byte(&mut self, i: usize, v: u8)
        requires
            i < old(self)@.cap(),
        ensures
            final(self)@ == (BlockModel { bytes: old(self)@.bytes.update(i as int, v), ..old(self)@ }),
    {
        self.data[i] = v;
    }

    /// Copies `n` bytes starting at `off` out of the buffer.
    pub fn read_range(&self, off: usize, n: usize) -> (r: Vec<u8>)
        requires
            off + n <= self@.cap(),
        ensures
            r@ == self@.bytes.subrange(off as int, off as int + n as int),
    {
        let cap = self.data.len();
        let mut out: Vec<u8> = Vec::new();
        let mut i: usize = 0;
        while i < n
            invariant
                i <= n,
                off + n <= cap,
                cap == self@.cap(),
                out@.len() == i,
                forall|j: int| 0 <= j < i ==> out@[j] == self@.bytes[off + j],
            decreases n - i,
        {
            out.push(self.data[off + i]);
            i = i + 1;
        }
        proof {
            assert(out@ =~= self@.bytes.subrange(off as int, off as int + n as int));
        }
        out
    }

    /// Writes the bytes of `src` into the buffer starting at `off`; the
    /// bytes outside the written range are untouched, as are the base
    /// address and the cursor.
    pub fn write_range(&mut self, off: usize, src: &Vec<u8>)
        requires
            off + src@.len() <= old(self)@.cap(),
        ensures
            final(self)@.base == old(self)@.base,
            final(self)@.len == old(self)@.len,
            final(self)@.bytes.len() == old(self)@.bytes.len(),
            forall|j: int| 0 <= j < src@.len() ==> final(self)@.bytes[off + j] == src@[j],
            forall|j: int|
                0 <= j < old(self)@.bytes.len() && !(off <= j < off + src@.len())
                    ==> final(self)@.bytes[j] == old(self)@.bytes[j],
    {
        let n = src.len();
        let cap = self.data.len();
        let mut i: usize = 0;
        while i < n
            invariant
                i <= n,
                n == src@.len(),
                off + n <= cap,
                cap == old(self)@.cap(),
                off + n <= old(self)@.cap(),
                self@.base == old(self)@.base,
                self@.len == old(self)@.len,
                self@.bytes.len() == old(self)@.bytes.len(),
                forall|j: int| 0 <= j < i ==> self@.bytes[off + j] == src@[j],
                forall|j: int|
                    0 <= j < old(self)@.bytes.len() && !(off <= j < off + i)
                        ==> self@.bytes[j] == old(self)@.bytes[j],
            decreases n - i,
        {
            self.data[off + i] = src[i];
            i = i + 1;
        }
    }
}

} // verus!
