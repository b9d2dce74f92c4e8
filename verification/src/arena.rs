//! The arena: an ordered sequence of blocks, a scope-reuse protocol, and a
//! model of the address space that keeps block ranges disjoint.

use vstd::prelude::*;
use vstd::pervasive::unreached;
use crate::block::BlockModel;
use crate::block::OwnedArenaBlock;
use crate::block::block_alloc_offset;
use crate::block::block_alloc_pad;
use crate::block::block_bump;
use crate::block::block_fits;
use crate::block::can_resize_in_place;
use crate::block::spec_is_head;
use crate::block::zero_block;
use crate::layout::AllocErr;
use crate::layout::CannotReallocInPlace;
use crate::layout::Layout;
use crate::layout::MAX_OBJECT_SIZE;
use crate::layout::check_layout;
use crate::layout::lemma_align_padding;

verus! {

/// The capacity of the block a fresh arena starts with.
pub const INITIAL_BLOCK_CAPACITY: usize = 4096;

/// A handle to one allocation: the index of its block in the arena's
/// sequence, its offset inside that block's buffer, and its absolute
/// address `base + offset`.
#[derive(Clone, Copy, PartialEq, Eq, Structural, Debug)]
pub struct ArenaPtr {
    pub block_index: usize,
    pub offset: usize,
    pub addr: usize,
}

/// An allocation together with the number of usable bytes granted: exactly
/// the requested size, since no slack is promised beyond the request.
#[derive(Clone, Copy, PartialEq, Eq, Structural, Debug)]
pub struct Excess(pub ArenaPtr, pub usize);

/// The state recorded before a scoped callback runs: the number of blocks
/// and the cursor of the block that was current at that moment.
#[derive(Clone, Copy, PartialEq, Eq, Structural, Debug)]
pub struct ScopeCheckpoint {
    pub block_count: usize,
    pub len: usize,
}

/// The mathematical state of an arena: its blocks, oldest first, and the
/// next free address of the modelled address space.
pub ghost struct ArenaModel {
    pub blocks: Seq<BlockModel>,
    pub next_base: int,
}

impl ArenaModel {
    /// The number of blocks.
    pub open spec fn n(self) -> int {
        self.blocks.len() as int
    }

    /// The current block: the last one, which satisfies new requests.
    pub open spec fn cur(self) -> BlockModel {
        self.blocks[self.n() - 1]
    }

    /// The arena invariant: at least one block; every block well formed
    /// with capacity at least the initial one; block address ranges
    /// pairwise disjoint and in increasing order, all below `next_base`;
    /// capacities nondecreasing from oldest to newest.
    pub open spec fn wf(self) -> bool {
        &&& self.n() >= 1
        &&& forall|i: int| 0 <= i < self.n() ==> (#[trigger] self.blocks[i]).wf()
        &&& forall|i: int|
            0 <= i < self.n() ==> (#[trigger] self.blocks[i]).cap() >= INITIAL_BLOCK_CAPACITY
        &&& forall|i: int| 0 <= i < self.n() ==> (#[trigger] self.blocks[i]).end() <= self.next_base
        &&& forall|i: int, j: int|
            #![trigger self.blocks[i], self.blocks[j]]
            0 <= i < j < self.n() ==> self.blocks[i].end() <= self.blocks[j].base
        &&& forall|i: int, j: int|
            #![trigger self.blocks[i].cap(), self.blocks[j].cap()]
            0 <= i <= j < self.n() ==> self.blocks[i].cap() <= self.blocks[j].cap()
        &&& INITIAL_BLOCK_CAPACITY * self.n() <= self.next_base
        &&& 0 <= self.next_base <= usize::MAX
    }
}

/// A live allocation of `size` bytes: it names a block, lies within that
/// block's used region, and its address matches its block and offset.
pub open spec fn ptr_live(a: ArenaModel, p: ArenaPtr, size: int) -> bool {
    &&& 0 <= p.block_index < a.blocks.len()
    &&& p.addr == a.blocks[p.block_index as int].base + p.offset
    &&& p.offset + size <= a.blocks[p.block_index as int].len
}

/// The capacity a fresh block is created with when the current block
/// cannot satisfy `layout`: at least twice the current capacity, and at
/// least the request's size plus its alignment, so that the fresh block is
/// always sufficient for the request that triggered it.
pub open spec fn grown_cap(a: ArenaModel, layout: Layout) -> int {
    let doubled = 2 * a.cur().cap();
    let need = layout.size + layout.align;
    if doubled >= need {
        doubled
    } else {
        need
    }
}

/// Whether a fresh block of capacity `grown_cap` can be carved out of the
/// remaining address space. When it cannot, the backing-buffer creation
/// fails and the failure is terminal for that request.
pub open spec fn can_grow(a: ArenaModel, layout: Layout) -> bool {
    &&& 2 * a.cur().cap() <= usize::MAX
    &&& layout.size + layout.align <= usize::MAX
    &&& a.next_base + grown_cap(a, layout) <= usize::MAX
}

/// The state of a block after the head allocation of `size` bytes is
/// conceptually freed: the cursor is rewound by `size`.
pub open spec fn rewind(b: BlockModel, size: int) -> BlockModel {
    BlockModel { len: b.len - size, ..b }
}

/// The block a reallocation is placed against: when the target is the
/// current block's head allocation, the current block with that
/// allocation rewound (its bytes are freed for the new placement);
/// otherwise the current block as it stands.
pub open spec fn realloc_src(pre: ArenaModel, ptr: ArenaPtr, old_layout: Layout) -> BlockModel {
    if spec_is_head(pre.cur(), ptr.addr as int, old_layout.size as int) {
        rewind(pre.cur(), old_layout.size as int)
    } else {
        pre.cur()
    }
}

/// Whether a reallocation fits the current block: when the target is the
/// current block's head allocation it is first rewound, freeing its bytes
/// for the new placement; otherwise the request must fit as-is.
pub open spec fn realloc_fits_current(
    pre: ArenaModel,
    ptr: ArenaPtr,
    old_layout: Layout,
    new_layout: Layout,
) -> bool {
    block_fits(realloc_src(pre, ptr, old_layout), new_layout)
}

/// The exact effect of a successful reallocation. The request is placed
/// against `realloc_src` — the current block, head-rewound when the
/// target is its head allocation — exactly as `allocate` would place it,
/// which pins the returned offset, address and new cursor: in particular
/// an eligible, aligned head allocation keeps its address. The first
/// `min(old, new)` bytes of the old allocation are carried over (never
/// more: copying the full old size of a shrinking request would overrun
/// the new placement), every byte of the current block outside the placed
/// range is unchanged, and older blocks are untouched. When the request
/// does not fit, one fresh block of capacity `grown_cap` is appended,
/// holding the carried bytes at the placed range and zeroes elsewhere,
/// and every pre-existing block — the retired current one included — is
/// carried over intact.
pub open spec fn arena_realloc_ok(
    pre: ArenaModel,
    post: ArenaModel,
    ptr: ArenaPtr,
    old_layout: Layout,
    new_layout: Layout,
    p: ArenaPtr,
) -> bool {
    let kept = vstd::math::min(old_layout.size as int, new_layout.size as int);
    let src = realloc_src(pre, ptr, old_layout);
    &&& new_layout.size <= MAX_OBJECT_SIZE
    &&& ptr_live(post, p, new_layout.size as int)
    &&& (p.addr as int) % (new_layout.align as int) == 0
    &&& spec_is_head(post.blocks[p.block_index as int], p.addr as int, new_layout.size as int)
    &&& p.addr == post.blocks[p.block_index as int].base + p.offset
    &&& forall|j: int|
        #![trigger post.blocks[p.block_index as int].bytes[p.offset + j]]
        0 <= j < kept ==> post.blocks[p.block_index as int].bytes[p.offset + j]
            == pre.blocks[ptr.block_index as int].bytes[ptr.offset + j]
    &&& if block_fits(src, new_layout) {
        &&& post.n() == pre.n()
        &&& post.next_base == pre.next_base
        &&& p.block_index == pre.n() - 1
        &&& p.offset == block_alloc_offset(src, new_layout)
        &&& post.cur().base == pre.cur().base
        &&& post.cur().cap() == pre.cur().cap()
        &&& post.cur().len == block_bump(src, new_layout).len
        &&& forall|i: int| 0 <= i < pre.n() - 1 ==> post.blocks[i] == pre.blocks[i]
        &&& forall|j: int|
            #![trigger post.cur().bytes[j]]
            0 <= j < pre.cur().cap() && !(p.offset <= j < p.offset + kept)
                ==> post.cur().bytes[j] == pre.cur().bytes[j]
    } else {
        &&& can_grow(pre, new_layout)
        &&& post.n() == pre.n() + 1
        &&& post.next_base == pre.next_base + grown_cap(pre, new_layout)
        &&& p.block_index == pre.n()
        &&& forall|i: int| 0 <= i < pre.n() ==> post.blocks[i] == pre.blocks[i]
        &&& post.blocks[p.block_index as int].base == pre.next_base
        &&& post.blocks[p.block_index as int].cap() == grown_cap(pre, new_layout)
        &&& p.offset == block_alloc_offset(
            zero_block(pre.next_base, grown_cap(pre, new_layout)),
            new_layout,
        )
        &&& post.blocks[p.block_index as int].len == p.offset + new_layout.size
        &&& forall|j: int|
            #![trigger post.blocks[p.block_index as int].bytes[j]]
            0 <= j < grown_cap(pre, new_layout) && !(p.offset <= j < p.offset + kept)
                ==> post.blocks[p.block_index as int].bytes[j] == 0u8
    }
}

/// The effect of restoring a checkpoint. When no block was appended since
/// the checkpoint, only the checkpointed block's cursor is rewound. When
/// blocks were appended, they are all removed, the checkpointed block's
/// cursor is rewound, and the newest removed block is appended back as an
/// empty spare.
pub open spec fn scope_restore_post(pre: ArenaModel, post: ArenaModel, chk: ScopeCheckpoint) -> bool {
    let c = chk.block_count as int;
    &&& post.next_base == pre.next_base
    &&& if pre.n() == c {
        post.blocks == pre.blocks.update(
            c - 1,
            (BlockModel { len: chk.len as int, ..pre.blocks[c - 1] }),
        )
    } else {
        post.blocks == pre.blocks.take(c).update(
            c - 1,
            (BlockModel { len: chk.len as int, ..pre.blocks[c - 1] }),
        ).push((BlockModel { len: 0, ..pre.blocks[pre.n() - 1] }))
    }
}

/// The exact effect of a successful zeroed allocation: placed exactly as
/// `allocate` places it, with the returned range zero-filled, every other
/// byte of the current block unchanged, and older blocks untouched. A
/// fresh block holds zeroes everywhere.
pub open spec fn arena_alloc_zeroed_ok(
    pre: ArenaModel,
    post: ArenaModel,
    layout: Layout,
    p: ArenaPtr,
) -> bool {
    &&& layout.size <= MAX_OBJECT_SIZE
    &&& ptr_live(post, p, layout.size as int)
    &&& (p.addr as int) % (layout.align as int) == 0
    &&& p.addr == post.blocks[p.block_index as int].base + p.offset
    &&& forall|j: int|
        #![trigger post.blocks[p.block_index as int].bytes[p.offset + j]]
        0 <= j < layout.size ==> post.blocks[p.block_index as int].bytes[p.offset + j] == 0u8
    &&& if block_fits(pre.cur(), layout) {
        &&& post.n() == pre.n()
        &&& post.next_base == pre.next_base
        &&& p.block_index == pre.n() - 1
        &&& p.offset == block_alloc_offset(pre.cur(), layout)
        &&& post.cur().base == pre.cur().base
        &&& post.cur().cap() == pre.cur().cap()
        &&& post.cur().len == block_bump(pre.cur(), layout).len
        &&& forall|i: int| 0 <= i < pre.n() - 1 ==> post.blocks[i] == pre.blocks[i]
        &&& forall|j: int|
            #![trigger post.cur().bytes[j]]
            0 <= j < pre.cur().cap() && !(p.offset <= j < p.offset + layout.size)
                ==> post.cur().bytes[j] == pre.cur().bytes[j]
    } else {
        &&& can_grow(pre, layout)
        &&& post.n() == pre.n() + 1
        &&& post.next_base == pre.next_base + grown_cap(pre, layout)
        &&& p.block_index == pre.n()
        &&& forall|i: int| 0 <= i < pre.n() ==> post.blocks[i] == pre.blocks[i]
        &&& post.blocks[p.block_index as int].base == pre.next_base
        &&& post.blocks[p.block_index as int].cap() == grown_cap(pre, layout)
        &&& p.offset == block_alloc_offset(
            zero_block(pre.next_base, grown_cap(pre, layout)),
            layout,
        )
        &&& post.blocks[p.block_index as int].len == p.offset + layout.size
        &&& forall|j: int|
            #![trigger post.blocks[p.block_index as int].bytes[j]]
            0 <= j < grown_cap(pre, layout) ==> post.blocks[p.block_index as int].bytes[j] == 0u8
    }
}

/// The full effect of a successful allocation: either the request fit the
/// current block, whose cursor advanced past the padded request, or a
/// fresh block of capacity `grown_cap` was appended and the request was
/// placed at the front of it. Either way the returned handle addresses the
/// placed range, is aligned as requested, and is live.
pub open spec fn arena_alloc_ok(
    pre: ArenaModel,
    post: ArenaModel,
    layout: Layout,
    p: ArenaPtr,
) -> bool {
    &&& layout.size <= MAX_OBJECT_SIZE
    &&& if block_fits(pre.cur(), layout) {
        &&& post.blocks == pre.blocks.update(pre.n() - 1, block_bump(pre.cur(), layout))
        &&& post.next_base == pre.next_base
        &&& p.block_index == pre.n() - 1
        &&& p.offset == block_alloc_offset(pre.cur(), layout)
    } else {
        &&& can_grow(pre, layout)
        &&& post.blocks == pre.blocks.push(
            block_bump(zero_block(pre.next_base, grown_cap(pre, layout)), layout),
        )
        &&& post.next_base == pre.next_base + grown_cap(pre, layout)
        &&& p.block_index == pre.n()
        &&& p.offset == block_alloc_offset(zero_block(pre.next_base, grown_cap(pre, layout)), layout)
    }
    &&& p.addr == post.blocks[p.block_index as int].base + p.offset
    &&& (p.addr as int) % (layout.align as int) == 0
    &&& ptr_live(post, p, layout.size as int)
}

/// A per-thread arena: all blocks but the newest, the newest ("current")
/// block that satisfies requests, and the next free modelled address.
pub struct OwnedArena {
    older: Vec<OwnedArenaBlock>,
    current: OwnedArenaBlock,
    next_base: usize,
}

impl View for OwnedArena {
    type V = ArenaModel;

    closed spec fn view(&self) -> ArenaModel {
        ArenaModel {
            blocks: self.older@.map_values(|b: OwnedArenaBlock| b@).push(self.current@),
            next_base: self.next_base as int,
        }
    }
}

impl OwnedArena {
    /// Creates an arena holding one empty block of the initial capacity at
    /// the bottom of the modelled address space.
    pub fn new() -> (r: Result<OwnedArena, AllocErr>)
        ensures
            r is Ok,
            r matches Ok(a) ==> a@.wf() && a@.blocks =~= seq![
                zero_block(0, INITIAL_BLOCK_CAPACITY as int),
            ] && a@.next_base == INITIAL_BLOCK_CAPACITY,
    {
        let current = OwnedArenaBlock::with_capacity_at(0, INITIAL_BLOCK_CAPACITY);
        let a = OwnedArena { older: Vec::new(), current, next_base: INITIAL_BLOCK_CAPACITY };
        proof {
            assert(a@.blocks =~= seq![zero_block(0, INITIAL_BLOCK_CAPACITY as int)]);
        }
        Ok(a)
    }

    /// The number of blocks the arena currently holds.
    pub fn num_blocks(&self) -> (r: usize)
        requires
            self@.wf(),
        ensures
            r == self@.blocks.len(),
    {
        proof {
            assert(INITIAL_BLOCK_CAPACITY * self@.n() <= usize::MAX);
        }
        self.older.len() + 1
    }

    /// The capacity of block `i` (oldest first; the last is current).
    pub fn block_capacity(&self, i: usize) -> (r: usize)
        requires
            self@.wf(),
            i < self@.blocks.len(),
        ensures
            r == self@.blocks[i as int].cap(),
    {
        if i == self.older.len() {
            self.current.capacity()
        } else {
            self.older[i].capacity()
        }
    }

    /// The used length (bump cursor) of block `i`.
    pub fn block_len(&self, i: usize) -> (r: usize)
        requires
            self@.wf(),
            i < self@.blocks.len(),
        ensures
            r == self@.blocks[i as int].len,
    {
        if i == self.older.len() {
            self.current.used_len()
        } else {
            self.older[i].used_len()
        }
    }

    /// The base address of block `i`.
    pub fn block_base(&self, i: usize) -> (r: usize)
        requires
            self@.wf(),
            i < self@.blocks.len(),
        ensures
            r == self@.blocks[i as int].base,
    {
        if i == self.older.len() {
            self.current.base_addr()
        } else {
            self.older[i].base_addr()
        }
    }

    /// Retires the current block and installs a fresh one sized
    /// `grown_cap` at the next free address. Fails, leaving the arena
    /// untouched, exactly when the needed capacity or address range does
    /// not fit the address space: the model of the backing-buffer
    /// allocation itself failing.
    fn new_block(&mut self, layout: Layout) -> (r: Result<(), AllocErr>)
        requires
            old(self)@.wf(),
            layout.wf(),
        ensures
            final(self)@.wf(),
            can_grow(old(self)@, layout) ==> r is Ok && final(self)@.blocks == old(
                self,
            )@.blocks.push(zero_block(old(self)@.next_base, grown_cap(old(self)@, layout)))
                && final(self)@.next_base == old(self)@.next_base + grown_cap(old(self)@, layout),
            !can_grow(old(self)@, layout) ==> r == Err::<(), AllocErr>(
                AllocErr::Exhausted { request: layout },
            ) && final(self)@ == old(self)@,
    {
        let cap_c = self.current.capacity();
        if cap_c > usize::MAX / 2 {
            return Err(AllocErr::Exhausted { request: layout });
        }
        let doubled = cap_c * 2;
        if layout.align > usize::MAX - layout.size {
            return Err(AllocErr::Exhausted { request: layout });
        }
        let need = layout.size + layout.align;
        let new_cap = if doubled >= need {
            doubled
        } else {
            need
        };
        if new_cap > usize::MAX - self.next_base {
            return Err(AllocErr::Exhausted { request: layout });
        }
        let ghost pre = self@;
        let mut fresh = OwnedArenaBlock::with_capacity_at(self.next_base, new_cap);
        self.next_base = self.next_base + new_cap;
        core::mem::swap(&mut self.current, &mut fresh);
        self.older.push(fresh);
        proof {
            assert(self@.blocks =~= pre.blocks.push(
                zero_block(pre.next_base, grown_cap(pre, layout)),
            ));
            assert forall|i: int, j: int|
                #![trigger self@.blocks[i], self@.blocks[j]]
                0 <= i < j < self@.n() implies self@.blocks[i].end() <= self@.blocks[j].base by {
                if j < self@.n() - 1 {
                    assert(pre.blocks[i].end() <= pre.blocks[j].base);
                }
            }
            assert forall|i: int, j: int|
                #![trigger self@.blocks[i].cap(), self@.blocks[j].cap()]
                0 <= i <= j < self@.n() implies self@.blocks[i].cap() <= self@.blocks[j].cap() by {
                if j < self@.n() - 1 {
                    assert(pre.blocks[i].cap() <= pre.blocks[j].cap());
                } else if i < j {
                    assert(pre.blocks[i].cap() <= pre.cur().cap());
                }
            }
            assert(INITIAL_BLOCK_CAPACITY * self@.n() <= self@.next_base) by {
                assert(INITIAL_BLOCK_CAPACITY * self@.n() == INITIAL_BLOCK_CAPACITY * pre.n()
                    + INITIAL_BLOCK_CAPACITY) by (nonlinear_arith)
                    requires
                        self@.n() == pre.n() + 1,
                ;
                assert(grown_cap(pre, layout) >= 2 * pre.cur().cap());
                assert(pre.cur().cap() >= INITIAL_BLOCK_CAPACITY);
            }
        }
        Ok(())
    }

    /// Allocates `layout` from the arena: from the current block when it
    /// fits, and otherwise from a single freshly created block, which the
    /// sizing rule makes always sufficient. Oversized requests are
    /// rejected as unsupported before any block is touched, and a request
    /// fails as exhausted exactly when no fresh block can be created.
    pub fn allocate(&mut self, layout: Layout) -> (r: Result<ArenaPtr, AllocErr>)
        requires
            old(self)@.wf(),
            layout.wf(),
        ensures
            final(self)@.wf(),
            match r {
                Ok(p) => arena_alloc_ok(old(self)@, final(self)@, layout, p),
                Err(AllocErr::Unsupported) => layout.size > MAX_OBJECT_SIZE && final(self)@ == old(
                    self,
                )@,
                Err(AllocErr::Exhausted { request }) => request == layout && layout.size
                    <= MAX_OBJECT_SIZE && !block_fits(old(self)@.cur(), layout) && !can_grow(
                    old(self)@,
                    layout,
                ) && final(self)@ == old(self)@,
            },
    {
        match check_layout(layout) {
            Err(e) => { return Err(e); },
            Ok(()) => {},
        }
        let ghost pre = self@;
        proof {
            assert(pre.blocks[pre.n() - 1].wf());
        }
        match self.current.allocate(layout) {
            Ok(off) => {
                proof {
                    assert(self.current@.wf());
                    assert(off <= self.current@.len);
                }
                let addr = self.current.base_addr() + off;
                let p = ArenaPtr { block_index: self.older.len(), offset: off, addr };
                proof {
                    assert(self@.blocks =~= pre.blocks.update(
                        pre.n() - 1,
                        block_bump(pre.cur(), layout),
                    ));
                }
                Ok(p)
            },
            Err(AllocErr::Unsupported) => unreached(),
            Err(AllocErr::Exhausted { .. }) => {
                match self.new_block(layout) {
                    Err(e) => Err(e),
                    Ok(()) => {
                        let ghost mid = self@;
                        proof {
                            lemma_align_padding(
                                mid.cur().base + mid.cur().len,
                                layout.align as int,
                            );
                            assert(block_fits(mid.cur(), layout));
                        }
                        match self.current.allocate(layout) {
                            Ok(off) => {
                                proof {
                                    assert(self.current@.wf());
                                    assert(off <= self.current@.len);
                                }
                                let addr = self.current.base_addr() + off;
                                let p = ArenaPtr {
                                    block_index: self.older.len(),
                                    offset: off,
                                    addr,
                                };
                                proof {
                                    assert(self@.blocks =~= mid.blocks.update(
                                        mid.n() - 1,
                                        block_bump(mid.cur(), layout),
                                    ));
                                    assert(mid.cur() == zero_block(
                                        pre.next_base,
                                        grown_cap(pre, layout),
                                    ));
                                    assert(self@.blocks =~= pre.blocks.push(
                                        block_bump(
                                            zero_block(pre.next_base, grown_cap(pre, layout)),
                                            layout,
                                        ),
                                    ));
                                }
                                Ok(p)
                            },
                            Err(_) => unreached(),
                        }
                    },
                }
            },
        }
    }

    /// Individual deallocation is a no-op by design: memory is reclaimed
    /// in bulk at scope boundaries only.
    pub fn deallocate(&mut self, _ptr: ArenaPtr, _layout: Layout)
        ensures
            final(self)@ == old(self)@,
    {
    }

    /// Exactly the requested number of bytes is usable: no slack is
    /// promised beyond the request.
    pub fn usable_size(&self, layout: &Layout) -> (r: (usize, usize))
        ensures
            r == (layout.size, layout.size),
    {
        (layout.size, layout.size)
    }

    /// Allocates like `allocate` and zero-fills the returned range. The
    /// rest of the arena is untouched apart from the placement itself.
    pub fn alloc_zeroed(&mut self, layout: Layout) -> (r: Result<ArenaPtr, AllocErr>)
        requires
            old(self)@.wf(),
            layout.wf(),
        ensures
            final(self)@.wf(),
            match r {
                Ok(p) => arena_alloc_zeroed_ok(old(self)@, final(self)@, layout, p),
                Err(AllocErr::Unsupported) => layout.size > MAX_OBJECT_SIZE && final(self)@ == old(
                    self,
                )@,
                Err(AllocErr::Exhausted { request }) => request == layout && layout.size
                    <= MAX_OBJECT_SIZE && !block_fits(old(self)@.cur(), layout) && !can_grow(
                    old(self)@,
                    layout,
                ) && final(self)@ == old(self)@,
            },
    {
        let ghost pre = self@;
        match self.allocate(layout) {
            Err(e) => Err(e),
            Ok(p) => {
                let ghost mid = self@;
                let mut j: usize = 0;
                while j < layout.size
                    invariant
                        j <= layout.size,
                        self@.wf(),
                        ptr_live(self@, p, layout.size as int),
                        self@.n() == mid.n(),
                        self@.next_base == mid.next_base,
                        p.block_index < self@.n(),
                        forall|i: int|
                            0 <= i < self@.n() && i != p.block_index ==> #[trigger] self@.blocks[i]
                                == mid.blocks[i],
                        self@.blocks[p.block_index as int].base == mid.blocks[
                            p.block_index as int
                        ].base,
                        self@.blocks[p.block_index as int].len == mid.blocks[
                            p.block_index as int
                        ].len,
                        self@.blocks[p.block_index as int].cap() == mid.blocks[
                            p.block_index as int
                        ].cap(),
                        forall|j2: int|
                            0 <= j2 < j ==> self@.blocks[p.block_index as int].bytes[#[trigger] (
                            p.offset + j2)] == 0u8,
                        forall|j2: int|
                            #![trigger self@.blocks[p.block_index as int].bytes[j2]]
                            0 <= j2 < self@.blocks[p.block_index as int].cap() && !(p.offset <= j2
                                < p.offset + j) ==> self@.blocks[p.block_index as int].bytes[j2]
                                == mid.blocks[p.block_index as int].bytes[j2],
                    decreases layout.size - j,
                {
                    self.write_byte(p, j, 0u8);
                    j = j + 1;
                }
                proof {
                    assert forall|i: int|
                        0 <= i < pre.n() - 1 implies self@.blocks[i] == pre.blocks[i] by {
                        assert(self@.blocks[i] == mid.blocks[i]);
                    }
                    if !block_fits(pre.cur(), layout) {
                        assert(mid.blocks[p.block_index as int].bytes == zero_block(
                            pre.next_base,
                            grown_cap(pre, layout),
                        ).bytes);
                        assert forall|j2: int|
                            0 <= j2 < grown_cap(pre, layout) implies #[trigger] self@.blocks[
                            p.block_index as int
                        ].bytes[j2] == 0u8 by {
                            if p.offset <= j2 < p.offset + layout.size {
                                assert(self@.blocks[p.block_index as int].bytes[p.offset + (j2
                                    - p.offset)] == 0u8);
                            } else {
                                assert(self@.blocks[p.block_index as int].bytes[j2] == mid.blocks[
                                    p.block_index as int
                                ].bytes[j2]);
                                assert(zero_block(pre.next_base, grown_cap(pre, layout)).bytes[j2]
                                    == 0u8);
                            }
                        }
                    }
                }
                Ok(p)
            },
        }
    }

    /// Allocates like `allocate` and also reports the usable size granted,
    /// which is exactly the request.
    pub fn alloc_excess(&mut self, layout: Layout) -> (r: Result<Excess, AllocErr>)
        requires
            old(self)@.wf(),
            layout.wf(),
        ensures
            final(self)@.wf(),
            match r {
                Ok(e) => arena_alloc_ok(old(self)@, final(self)@, layout, e.0) && e.1
                    == layout.size,
                Err(AllocErr::Unsupported) => layout.size > MAX_OBJECT_SIZE && final(self)@ == old(
                    self,
                )@,
                Err(AllocErr::Exhausted { request }) => request == layout && layout.size
                    <= MAX_OBJECT_SIZE && !block_fits(old(self)@.cur(), layout) && !can_grow(
                    old(self)@,
                    layout,
                ) && final(self)@ == old(self)@,
            },
    {
        match self.allocate(layout) {
            Ok(p) => Ok(Excess(p, layout.size)),
            Err(e) => Err(e),
        }
    }

    /// Reallocates a live allocation to a new layout, possibly moving it.
    /// When the target is the current block's head allocation its bytes are
    /// freed before the new placement, so growing the newest allocation
    /// stays in place whenever its address already satisfies the new
    /// alignment; otherwise the old region is abandoned in place and the
    /// request is placed afresh. On a move, `min(old, new)` bytes are
    /// carried over — deliberately not the full old size of a shrinking
    /// request, which would overrun the new placement — and no other byte
    /// of the arena changes. On exhaustion the request is retried against
    /// one fresh block.
    #[verifier::rlimit(100)]
    #[verifier::spinoff_prover]
    pub fn reallocate(&mut self, ptr: ArenaPtr, old_layout: Layout, new_layout: Layout) -> (r:
        Result<ArenaPtr, AllocErr>)
        requires
            old(self)@.wf(),
            old_layout.wf(),
            new_layout.wf(),
            ptr_live(old(self)@, ptr, old_layout.size as int),
        ensures
            final(self)@.wf(),
            match r {
                Ok(p) => arena_realloc_ok(
                    old(self)@,
                    final(self)@,
                    ptr,
                    old_layout,
                    new_layout,
                    p,
                ),
                Err(AllocErr::Unsupported) => new_layout.size > MAX_OBJECT_SIZE && final(self)@
                    == old(self)@,
                Err(AllocErr::Exhausted { request }) => request == new_layout && new_layout.size
                    <= MAX_OBJECT_SIZE && !realloc_fits_current(
                    old(self)@,
                    ptr,
                    old_layout,
                    new_layout,
                ) && !can_grow(old(self)@, new_layout) && final(self)@ == old(self)@,
            },
    {
        match check_layout(new_layout) {
            Err(e) => { return Err(e); },
            Ok(()) => {},
        }
        let ghost pre = self@;
        proof {
            assert(pre.blocks[pre.n() - 1].wf());
            assert(pre.blocks[ptr.block_index as int].wf());
        }
        let n_copy = if old_layout.size <= new_layout.size {
            old_layout.size
        } else {
            new_layout.size
        };
        if self.current.is_head(ptr.addr, old_layout.size) {
            let cur_len = self.current.used_len();
            self.current.set_len(cur_len - old_layout.size);
            match self.current.allocate(new_layout) {
                Ok(off) => {
                    proof {
                        assert(self.current@.wf());
                        assert(off <= self.current@.len);
                    }
                    let addr = self.current.base_addr() + off;
                    let ghost mid2 = self@;
                    proof {
                        assert(mid2.blocks =~= pre.blocks.update(
                            pre.n() - 1,
                            block_bump(
                                rewind(pre.cur(), old_layout.size as int),
                                new_layout,
                            ),
                        ));
                        assert(mid2.wf());
                    }
                    if n_copy > 0 && addr != ptr.addr {
                        proof {
                            assert(mid2.blocks[ptr.block_index as int].cap() == pre.blocks[
                                ptr.block_index as int
                            ].cap());
                            assert(mid2.blocks[ptr.block_index as int].bytes == pre.blocks[
                                ptr.block_index as int
                            ].bytes);
                            assert(self.current@.len == off + new_layout.size);
                            assert(self.current@.len <= self.current@.cap());
                        }
                        let tmp = self.read_from_block(ptr.block_index, ptr.offset, n_copy);
                        self.current.write_range(off, &tmp);
                        proof {
                            assert forall|j: int|
                                0 <= j < n_copy implies #[trigger] self.current@.bytes[off + j]
                                == pre.blocks[ptr.block_index as int].bytes[ptr.offset + j] by {
                                assert(self.current@.bytes[off + j] == tmp@[j]);
                                assert(tmp@[j] == mid2.blocks[ptr.block_index as int].bytes[
                                    ptr.offset + j
                                ]);
                            }
                            assert forall|i: int|
                                0 <= i < mid2.n() implies (#[trigger] self@.blocks[i]).base
                                == mid2.blocks[i].base && self@.blocks[i].cap()
                                == mid2.blocks[i].cap() && self@.blocks[i].len
                                == mid2.blocks[i].len by {
                                if i < mid2.n() - 1 {
                                    assert(self@.blocks[i] == mid2.blocks[i]);
                                }
                            }
                            lemma_wf_same_shape(mid2, self@);
                        }
                    } else {
                        proof {
                            if n_copy > 0 {
                                assert(ptr.block_index as int == pre.n() - 1) by {
                                    if (ptr.block_index as int) < pre.n() - 1 {
                                        assert(pre.blocks[ptr.block_index as int].end()
                                            <= pre.cur().base);
                                        assert(ptr.addr < pre.blocks[
                                            ptr.block_index as int
                                        ].end());
                                    }
                                }
                                assert(ptr.offset == off);
                            }
                        }
                    }
                    let p = ArenaPtr { block_index: self.older.len(), offset: off, addr };
                    Ok(p)
                },
                Err(_) => {
                    self.current.set_len(cur_len);
                    proof {
                        assert(self@.blocks =~= pre.blocks);
                        assert(self@ == pre);
                    }
                    self.realloc_spill(ptr, new_layout, n_copy)
                },
            }
        } else {
            match self.current.allocate(new_layout) {
                Ok(off) => {
                    proof {
                        assert(self.current@.wf());
                        assert(off <= self.current@.len);
                    }
                    let addr = self.current.base_addr() + off;
                    let ghost mid2 = self@;
                    proof {
                        assert(mid2.blocks =~= pre.blocks.update(
                            pre.n() - 1,
                            block_bump(pre.cur(), new_layout),
                        ));
                        assert(mid2.wf());
                    }
                    if n_copy > 0 {
                        proof {
                            assert(mid2.blocks[ptr.block_index as int].cap() == pre.blocks[
                                ptr.block_index as int
                            ].cap());
                            assert(mid2.blocks[ptr.block_index as int].bytes == pre.blocks[
                                ptr.block_index as int
                            ].bytes);
                            assert(self.current@.len == off + new_layout.size);
                            assert(self.current@.len <= self.current@.cap());
                        }
                        let tmp = self.read_from_block(ptr.block_index, ptr.offset, n_copy);
                        self.current.write_range(off, &tmp);
                        proof {
                            assert forall|j: int|
                                0 <= j < n_copy implies #[trigger] self.current@.bytes[off + j]
                                == pre.blocks[ptr.block_index as int].bytes[ptr.offset + j] by {
                                assert(self.current@.bytes[off + j] == tmp@[j]);
                                assert(tmp@[j] == mid2.blocks[ptr.block_index as int].bytes[
                                    ptr.offset + j
                                ]);
                            }
                            assert forall|i: int|
                                0 <= i < mid2.n() implies (#[trigger] self@.blocks[i]).base
                                == mid2.blocks[i].base && self@.blocks[i].cap()
                                == mid2.blocks[i].cap() && self@.blocks[i].len
                                == mid2.blocks[i].len by {
                                if i < mid2.n() - 1 {
                                    assert(self@.blocks[i] == mid2.blocks[i]);
                                }
                            }
                            lemma_wf_same_shape(mid2, self@);
                        }
                    }
                    let p = ArenaPtr { block_index: self.older.len(), offset: off, addr };
                    Ok(p)
                },
                Err(_) => {
                    proof {
                        assert(self@.blocks =~= pre.blocks);
                        assert(self@ == pre);
                    }
                    self.realloc_spill(ptr, new_layout, n_copy)
                },
            }
        }
    }

    /// Reallocates like `reallocate` and also reports the usable size
    /// granted, which is exactly the new request.
    pub fn realloc_excess(
        &mut self,
        ptr: ArenaPtr,
        old_layout: Layout,
        new_layout: Layout,
    ) -> (r: Result<Excess, AllocErr>)
        requires
            old(self)@.wf(),
            old_layout.wf(),
            new_layout.wf(),
            ptr_live(old(self)@, ptr, old_layout.size as int),
        ensures
            final(self)@.wf(),
            match r {
                Ok(e) => arena_realloc_ok(
                    old(self)@,
                    final(self)@,
                    ptr,
                    old_layout,
                    new_layout,
                    e.0,
                ) && e.1 == new_layout.size,
                Err(AllocErr::Unsupported) => new_layout.size > MAX_OBJECT_SIZE && final(self)@
                    == old(self)@,
                Err(AllocErr::Exhausted { request }) => request == new_layout && new_layout.size
                    <= MAX_OBJECT_SIZE && !realloc_fits_current(
                    old(self)@,
                    ptr,
                    old_layout,
                    new_layout,
                ) && !can_grow(old(self)@, new_layout) && final(self)@ == old(self)@,
            },
    {
        match self.reallocate(ptr, old_layout, new_layout) {
            Ok(p) => Ok(Excess(p, new_layout.size)),
            Err(e) => Err(e),
        }
    }

    /// Grows the current block's head allocation in place: succeeds exactly
    /// when the target is the head allocation, its address satisfies the
    /// new alignment, and the free space holds the extra bytes. Never
    /// copies memory; on refusal the caller falls back to `reallocate`.
    pub fn grow_in_place(&mut self, ptr: ArenaPtr, old_layout: Layout, new_layout: Layout) -> (r:
        Result<(), CannotReallocInPlace>)
        requires
            old(self)@.wf(),
            new_layout.wf(),
            new_layout.size >= old_layout.size,
        ensures
            final(self)@.wf(),
            ({
                let pre = old(self)@;
                let delta = new_layout.size - old_layout.size;
                let ok_cond = can_resize_in_place(
                    pre.cur(),
                    ptr.addr as int,
                    old_layout.size as int,
                    new_layout.align as int,
                ) && delta <= pre.cur().cap() - pre.cur().len;
                &&& (r is Ok <==> ok_cond)
                &&& (r is Ok ==> final(self)@.blocks == pre.blocks.update(
                    pre.n() - 1,
                    (BlockModel { len: pre.cur().len + delta, ..pre.cur() }),
                ) && final(self)@.next_base == pre.next_base)
                &&& (r is Err ==> final(self)@ == pre)
            }),
    {
        let ghost pre = self@;
        proof {
            assert(pre.blocks[pre.n() - 1].wf());
        }
        let r = self.current.grow_in_place(ptr.addr, old_layout, new_layout);
        proof {
            if r is Ok {
                assert(self@.blocks =~= pre.blocks.update(
                    pre.n() - 1,
                    (BlockModel {
                        len: pre.cur().len + (new_layout.size - old_layout.size),
                        ..pre.cur()
                    }),
                ));
            } else {
                assert(self@.blocks =~= pre.blocks);
                assert(self@ == pre);
            }
        }
        r
    }

    /// Shrinks the current block's head allocation in place, by the
    /// identical eligibility rule as growing: head allocation and
    /// already-satisfied alignment.
    pub fn shrink_in_place(&mut self, ptr: ArenaPtr, old_layout: Layout, new_layout: Layout) -> (r:
        Result<(), CannotReallocInPlace>)
        requires
            old(self)@.wf(),
            new_layout.wf(),
            new_layout.size <= old_layout.size,
        ensures
            final(self)@.wf(),
            ({
                let pre = old(self)@;
                let ok_cond = can_resize_in_place(
                    pre.cur(),
                    ptr.addr as int,
                    old_layout.size as int,
                    new_layout.align as int,
                );
                &&& (r is Ok <==> ok_cond)
                &&& (r is Ok ==> final(self)@.blocks == pre.blocks.update(
                    pre.n() - 1,
                    (BlockModel {
                        len: pre.cur().len - old_layout.size + new_layout.size,
                        ..pre.cur()
                    }),
                ) && final(self)@.next_base == pre.next_base)
                &&& (r is Err ==> final(self)@ == pre)
            }),
    {
        let ghost pre = self@;
        proof {
            assert(pre.blocks[pre.n() - 1].wf());
        }
        let r = self.current.shrink_in_place(ptr.addr, old_layout, new_layout);
        proof {
            if r is Ok {
                assert(self@.blocks =~= pre.blocks.update(
                    pre.n() - 1,
                    (BlockModel {
                        len: pre.cur().len - old_layout.size + new_layout.size,
                        ..pre.cur()
                    }),
                ));
            } else {
                assert(self@.blocks =~= pre.blocks);
                assert(self@ == pre);
            }
        }
        r
    }

    /// Reads the byte `i` bytes into the allocation at `ptr`.
    pub fn read_byte(&self, ptr: ArenaPtr, i: usize) -> (r: u8)
        requires
            self@.wf(),
            ptr.block_index < self@.blocks.len(),
            ptr.offset + i < self@.blocks[ptr.block_index as int].cap(),
        ensures
            r == self@.blocks[ptr.block_index as int].bytes[ptr.offset + i],
    {
        let j = ptr.offset + i;
        if ptr.block_index == self.older.len() {
            self.current.read_byte(j)
        } else {
            self.older[ptr.block_index].read_byte(j)
        }
    }

    /// Writes a byte `i` bytes into the allocation at `ptr`. Only that one
    /// byte of that one block changes.
    pub fn write_byte(&mut self, ptr: ArenaPtr, i: usize, v: u8)
        requires
            old(self)@.wf(),
            ptr.block_index < old(self)@.blocks.len(),
            ptr.offset + i < old(self)@.blocks[ptr.block_index as int].cap(),
        ensures
            final(self)@.wf(),
            final(self)@.next_base == old(self)@.next_base,
            final(self)@.blocks == old(self)@.blocks.update(
                ptr.block_index as int,
                (BlockModel {
                    bytes: old(self)@.blocks[ptr.block_index as int].bytes.update(
                        ptr.offset + i,
                        v,
                    ),
                    ..old(self)@.blocks[ptr.block_index as int]
                }),
            ),
    {
        let ghost pre = self@;
        let j = ptr.offset + i;
        if ptr.block_index == self.older.len() {
            self.current.write_byte(j, v);
        } else {
            let blk = &mut self.older[ptr.block_index];
            proof {
                assert(blk@ == pre.blocks[ptr.block_index as int]);
            }
            blk.write_byte(j, v);
        }
        proof {
            assert(self@.blocks =~= pre.blocks.update(
                ptr.block_index as int,
                (BlockModel {
                    bytes: pre.blocks[ptr.block_index as int].bytes.update(ptr.offset + i, v),
                    ..pre.blocks[ptr.block_index as int]
                }),
            ));
            assert forall|i2: int|
                0 <= i2 < pre.n() implies (#[trigger] self@.blocks[i2]).base
                == pre.blocks[i2].base && self@.blocks[i2].cap() == pre.blocks[i2].cap()
                && self@.blocks[i2].len == pre.blocks[i2].len by {}
            lemma_wf_same_shape(pre, self@);
        }
    }

    /// Records the state a scoped callback starts from: the block count
    /// and the current block's cursor.
    pub fn scope_checkpoint(&self) -> (r: ScopeCheckpoint)
        requires
            self@.wf(),
        ensures
            r.block_count == self@.blocks.len(),
            r.len == self@.cur().len,
    {
        proof {
            assert(INITIAL_BLOCK_CAPACITY * self@.n() <= usize::MAX);
        }
        ScopeCheckpoint { block_count: self.older.len() + 1, len: self.current.used_len() }
    }

    /// Restores a checkpoint, reclaiming in bulk everything allocated
    /// since it was taken: the checkpointed block's cursor is rewound to
    /// its recorded value and every block appended since is removed —
    /// except that when blocks were appended, the newest of them, which
    /// the nondecreasing-capacity invariant makes the largest, is kept as
    /// an empty spare. The arena therefore ends with at most one block
    /// more than the checkpoint recorded.
    pub fn scope_restore(&mut self, chk: ScopeCheckpoint)
        requires
            old(self)@.wf(),
            1 <= chk.block_count <= old(self)@.blocks.len(),
            chk.len <= old(self)@.blocks[chk.block_count - 1].cap(),
        ensures
            final(self)@.wf(),
            scope_restore_post(old(self)@, final(self)@, chk),
            final(self)@.blocks.len() <= chk.block_count + 1,
    {
        let ghost pre = self@;
        proof {
            assert(pre.blocks[chk.block_count - 1].wf());
            assert(pre.blocks[pre.n() - 1].wf());
        }
        if chk.block_count == self.older.len() + 1 {
            self.current.set_len(chk.len);
            proof {
                assert(self@.blocks =~= pre.blocks.update(
                    chk.block_count - 1,
                    (BlockModel { len: chk.len as int, ..pre.blocks[chk.block_count - 1] }),
                ));
                assert forall|i2: int|
                    0 <= i2 < pre.n() implies (#[trigger] self@.blocks[i2]).base
                    == pre.blocks[i2].base && self@.blocks[i2].cap() == pre.blocks[i2].cap() by {}
                lemma_wf_shape_new_lens(pre, self@);
            }
        } else {
            self.current.set_len(0);
            while self.older.len() > chk.block_count
                invariant
                    chk.block_count <= self.older@.len(),
                    self.older@.len() < pre.n(),
                    forall|i: int|
                        0 <= i < self.older@.len() ==> (#[trigger] self.older@[i])@
                            == pre.blocks[i],
                    self.current@ == (BlockModel { len: 0, ..pre.blocks[pre.n() - 1] }),
                    self.next_base as int == pre.next_base,
                decreases self.older@.len(),
            {
                self.older.pop();
            }
            let last = self.older.pop();
            match last {
                Some(mut b) => {
                    proof {
                        assert(b@ == pre.blocks[chk.block_count - 1]);
                    }
                    b.set_len(chk.len);
                    self.older.push(b);
                    proof {
                        assert(self@.blocks =~= pre.blocks.take(chk.block_count as int).update(
                            chk.block_count - 1,
                            (BlockModel {
                                len: chk.len as int,
                                ..pre.blocks[chk.block_count - 1]
                            }),
                        ).push((BlockModel { len: 0, ..pre.blocks[pre.n() - 1] })));
                        lemma_scope_restore_wf(pre, self@, chk);
                    }
                },
                None => unreached(),
            }
        }
    }

    /// Copies `n` bytes out of block `bi` starting at `off`.
    fn read_from_block(&self, bi: usize, off: usize, n: usize) -> (r: Vec<u8>)
        requires
            bi < self@.blocks.len(),
            off + n <= self@.blocks[bi as int].cap(),
        ensures
            r@ == self@.blocks[bi as int].bytes.subrange(off as int, off as int + n as int),
    {
        if bi == self.older.len() {
            self.current.read_range(off, n)
        } else {
            self.older[bi].read_range(off, n)
        }
    }

    /// Completes a reallocation that the current block could not satisfy:
    /// creates one fresh block, places the request at its front, and
    /// carries the first `n_copy` bytes of the old allocation over.
    fn realloc_spill(&mut self, ptr: ArenaPtr, new_layout: Layout, n_copy: usize) -> (r: Result<
        ArenaPtr,
        AllocErr,
    >)
        requires
            old(self)@.wf(),
            new_layout.wf(),
            new_layout.size <= MAX_OBJECT_SIZE,
            ptr.block_index < old(self)@.blocks.len(),
            ptr.offset + n_copy <= old(self)@.blocks[ptr.block_index as int].cap(),
            n_copy <= new_layout.size,
        ensures
            final(self)@.wf(),
            !can_grow(old(self)@, new_layout) ==> r == Err::<ArenaPtr, AllocErr>(
                AllocErr::Exhausted { request: new_layout },
            ) && final(self)@ == old(self)@,
            can_grow(old(self)@, new_layout) ==> r is Ok,
            r matches Ok(p) ==> {
                let pre = old(self)@;
                let post = final(self)@;
                let fresh = zero_block(pre.next_base, grown_cap(pre, new_layout));
                &&& post.n() == pre.n() + 1
                &&& post.blocks[p.block_index as int].len == block_alloc_offset(fresh, new_layout)
                    + new_layout.size
                &&& forall|i: int| 0 <= i < pre.n() ==> post.blocks[i] == pre.blocks[i]
                &&& post.next_base == pre.next_base + grown_cap(pre, new_layout)
                &&& p.block_index == pre.n()
                &&& p.offset == block_alloc_offset(fresh, new_layout)
                &&& p.addr == post.blocks[p.block_index as int].base + p.offset
                &&& (p.addr as int) % (new_layout.align as int) == 0
                &&& ptr_live(post, p, new_layout.size as int)
                &&& spec_is_head(
                    post.blocks[p.block_index as int],
                    p.addr as int,
                    new_layout.size as int,
                )
                &&& post.blocks[p.block_index as int].base == pre.next_base
                &&& post.blocks[p.block_index as int].cap() == grown_cap(pre, new_layout)
                &&& forall|j: int|
                    #![trigger post.blocks[p.block_index as int].bytes[p.offset + j]]
                    0 <= j < n_copy ==> post.blocks[p.block_index as int].bytes[p.offset + j]
                        == pre.blocks[ptr.block_index as int].bytes[ptr.offset + j]
                &&& forall|j: int|
                    #![trigger post.blocks[p.block_index as int].bytes[j]]
                    0 <= j < grown_cap(pre, new_layout) && !(p.offset <= j < p.offset + n_copy)
                        ==> post.blocks[p.block_index as int].bytes[j] == 0u8
            },
    {
        let ghost pre = self@;
        match self.new_block(new_layout) {
            Err(e) => Err(e),
            Ok(()) => {
                let ghost mid = self@;
                proof {
                    assert(mid.cur() == zero_block(pre.next_base, grown_cap(pre, new_layout)));
                    lemma_align_padding(mid.cur().base + mid.cur().len, new_layout.align as int);
                    assert(block_fits(mid.cur(), new_layout));
                }
                match self.current.allocate(new_layout) {
                    Ok(off) => {
                        proof {
                            assert(self.current@.wf());
                            assert(off <= self.current@.len);
                        }
                        let addr = self.current.base_addr() + off;
                        let ghost mid2 = self@;
                        proof {
                            assert(mid2.blocks =~= mid.blocks.update(
                                mid.n() - 1,
                                block_bump(mid.cur(), new_layout),
                            ));
                            assert(mid2.wf());
                        }
                        if n_copy > 0 {
                            proof {
                                assert(mid2.blocks[ptr.block_index as int] == mid.blocks[
                                    ptr.block_index as int
                                ]);
                                assert(mid.blocks[ptr.block_index as int] == pre.blocks[
                                    ptr.block_index as int
                                ]);
                                assert(self.current@.len == off + new_layout.size);
                                assert(self.current@.len <= self.current@.cap());
                            }
                            let tmp = self.read_from_block(ptr.block_index, ptr.offset, n_copy);
                            self.current.write_range(off, &tmp);
                            proof {
                                assert forall|j: int|
                                    0 <= j < n_copy implies #[trigger] self.current@.bytes[off + j]
                                    == pre.blocks[ptr.block_index as int].bytes[ptr.offset
                                    + j] by {
                                    assert(self.current@.bytes[off + j] == tmp@[j]);
                                    assert(tmp@[j] == mid2.blocks[ptr.block_index as int].bytes[
                                        ptr.offset + j
                                    ]);
                                }
                                assert forall|i: int|
                                    0 <= i < mid2.n() implies (#[trigger] self@.blocks[i]).base
                                    == mid2.blocks[i].base && self@.blocks[i].cap()
                                    == mid2.blocks[i].cap() && self@.blocks[i].len
                                    == mid2.blocks[i].len by {
                                    if i < mid2.n() - 1 {
                                        assert(self@.blocks[i] == mid2.blocks[i]);
                                    }
                                }
                                lemma_wf_same_shape(mid2, self@);
                            }
                        }
                        let p = ArenaPtr { block_index: self.older.len(), offset: off, addr };
                        proof {
                            assert forall|i: int|
                                0 <= i < pre.n() implies self@.blocks[i] == pre.blocks[i] by {
                                assert(self@.blocks[i] == mid2.blocks[i]);
                                assert(mid2.blocks[i] == mid.blocks[i]);
                                assert(mid.blocks[i] == pre.blocks[i]);
                            }
                        }
                        Ok(p)
                    },
                    Err(_) => unreached(),
                }
            },
        }
    }
}

/// Two arenas whose blocks agree on base, capacity and cursor everywhere
/// are either both well formed or neither: well-formedness never depends
/// on the bytes stored in the buffers.
pub proof fn lemma_wf_same_shape(a: ArenaModel, b: ArenaModel)
    requires
        a.wf(),
        b.n() == a.n(),
        b.next_base == a.next_base,
        forall|i: int|
            0 <= i < a.n() ==> (#[trigger] b.blocks[i]).base == a.blocks[i].base
                && b.blocks[i].cap() == a.blocks[i].cap() && b.blocks[i].len == a.blocks[i].len,
    ensures
        b.wf(),
{
    assert forall|i: int| 0 <= i < b.n() implies (#[trigger] b.blocks[i]).wf() by {
        assert(a.blocks[i].wf());
    }
    assert forall|i: int, j: int|
        #![trigger b.blocks[i], b.blocks[j]]
        0 <= i < j < b.n() implies b.blocks[i].end() <= b.blocks[j].base by {
        assert(a.blocks[i].end() <= a.blocks[j].base);
    }
    assert forall|i: int, j: int|
        #![trigger b.blocks[i].cap(), b.blocks[j].cap()]
        0 <= i <= j < b.n() implies b.blocks[i].cap() <= b.blocks[j].cap() by {
        assert(a.blocks[i].cap() <= a.blocks[j].cap());
    }
}

/// Moving cursors cannot break the arena invariant: an arena whose blocks
/// agree with a well-formed one on base and capacity everywhere, with
/// every cursor inside its buffer, is well formed.
pub proof fn lemma_wf_shape_new_lens(a: ArenaModel, b: ArenaModel)
    requires
        a.wf(),
        b.n() == a.n(),
        b.next_base == a.next_base,
        forall|i: int|
            0 <= i < a.n() ==> (#[trigger] b.blocks[i]).base == a.blocks[i].base
                && b.blocks[i].cap() == a.blocks[i].cap() && 0 <= b.blocks[i].len
                <= b.blocks[i].cap(),
    ensures
        b.wf(),
{
    assert forall|i: int| 0 <= i < b.n() implies (#[trigger] b.blocks[i]).wf() by {
        assert(a.blocks[i].wf());
    }
    assert forall|i: int, j: int|
        #![trigger b.blocks[i], b.blocks[j]]
        0 <= i < j < b.n() implies b.blocks[i].end() <= b.blocks[j].base by {
        assert(a.blocks[i].end() <= a.blocks[j].base);
    }
    assert forall|i: int, j: int|
        #![trigger b.blocks[i].cap(), b.blocks[j].cap()]
        0 <= i <= j < b.n() implies b.blocks[i].cap() <= b.blocks[j].cap() by {
        assert(a.blocks[i].cap() <= a.blocks[j].cap());
    }
}

/// Restoring a checkpoint preserves the arena invariant: the surviving
/// prefix keeps its order and spacing, and the retained spare sits above
/// every surviving block in both address and capacity.
pub proof fn lemma_scope_restore_wf(pre: ArenaModel, post: ArenaModel, chk: ScopeCheckpoint)
    requires
        pre.wf(),
        1 <= chk.block_count < pre.n(),
        chk.len <= pre.blocks[chk.block_count - 1].cap(),
        scope_restore_post(pre, post, chk),
    ensures
        post.wf(),
{
    let c = chk.block_count as int;
    assert(post.n() == c + 1);
    assert forall|i: int| 0 <= i < post.n() implies (#[trigger] post.blocks[i]).wf() by {
        if i < c {
            assert(pre.blocks[i].wf());
        } else {
            assert(pre.blocks[pre.n() - 1].wf());
        }
    }
    assert forall|i: int|
        0 <= i < post.n() implies (#[trigger] post.blocks[i]).cap() >= INITIAL_BLOCK_CAPACITY by {
        if i < c {
            assert(pre.blocks[i].cap() >= INITIAL_BLOCK_CAPACITY);
        } else {
            assert(pre.blocks[pre.n() - 1].cap() >= INITIAL_BLOCK_CAPACITY);
        }
    }
    assert forall|i: int|
        0 <= i < post.n() implies (#[trigger] post.blocks[i]).end() <= post.next_base by {
        if i < c {
            assert(pre.blocks[i].end() <= pre.next_base);
        } else {
            assert(pre.blocks[pre.n() - 1].end() <= pre.next_base);
        }
    }
    assert forall|i: int, j: int|
        #![trigger post.blocks[i], post.blocks[j]]
        0 <= i < j < post.n() implies post.blocks[i].end() <= post.blocks[j].base by {
        if j < c {
            assert(pre.blocks[i].end() <= pre.blocks[j].base);
        } else {
            assert(pre.blocks[i].end() <= pre.blocks[pre.n() - 1].base);
        }
    }
    assert forall|i: int, j: int|
        #![trigger post.blocks[i].cap(), post.blocks[j].cap()]
        0 <= i <= j < post.n() implies post.blocks[i].cap() <= post.blocks[j].cap() by {
        if j < c {
            assert(pre.blocks[i].cap() <= pre.blocks[j].cap());
        } else if i < c {
            assert(pre.blocks[i].cap() <= pre.blocks[pre.n() - 1].cap());
        }
    }
    assert(INITIAL_BLOCK_CAPACITY * post.n() <= post.next_base) by {
        assert(INITIAL_BLOCK_CAPACITY * (c + 1) <= INITIAL_BLOCK_CAPACITY * pre.n())
            by (nonlinear_arith)
            requires
                c + 1 <= pre.n(),
        ;
    }
}

/// A fresh allocation never overlaps an allocation that was live before
/// it: its byte range lies entirely above every used byte of the arena,
/// whether it was placed behind the current block's cursor or in a fresh
/// block above every existing one.
pub proof fn lemma_alloc_disjoint_from_live(
    pre: ArenaModel,
    post: ArenaModel,
    layout: Layout,
    p: ArenaPtr,
    q: ArenaPtr,
    q_size: int,
)
    requires
        pre.wf(),
        layout.wf(),
        arena_alloc_ok(pre, post, layout, p),
        ptr_live(pre, q, q_size),
        q_size >= 0,
    ensures
        q.addr + q_size <= p.addr,
        p.addr + layout.size <= q.addr || q.addr + q_size <= p.addr,
{
    let qb = q.block_index as int;
    assert(pre.blocks[qb].wf());
    if block_fits(pre.cur(), layout) {
        lemma_align_padding(pre.cur().base + pre.cur().len, layout.align as int);
        assert(p.addr == pre.cur().base + pre.cur().len + block_alloc_pad(pre.cur(), layout));
        if qb == pre.n() - 1 {
            assert(q.addr + q_size <= pre.cur().base + pre.cur().len);
        } else {
            assert(pre.blocks[qb].end() <= pre.blocks[pre.n() - 1].base);
            assert(q.addr + q_size <= pre.blocks[qb].end());
        }
    } else {
        lemma_align_padding(pre.next_base, layout.align as int);
        assert(pre.blocks[qb].end() <= pre.next_base);
        assert(q.addr + q_size <= pre.blocks[qb].end());
        assert(p.addr >= pre.next_base);
    }
}

/// Back-to-back allocations sit at nondecreasing, disjoint addresses: the
/// second one starts at or above the end of the first.
pub proof fn lemma_consecutive_allocs_ordered(
    pre: ArenaModel,
    mid: ArenaModel,
    post: ArenaModel,
    l1: Layout,
    l2: Layout,
    p1: ArenaPtr,
    p2: ArenaPtr,
)
    requires
        pre.wf(),
        mid.wf(),
        l1.wf(),
        l2.wf(),
        arena_alloc_ok(pre, mid, l1, p1),
        arena_alloc_ok(mid, post, l2, p2),
    ensures
        p1.addr + l1.size <= p2.addr,
{
    let b1 = p1.block_index as int;
    assert(ptr_live(mid, p1, l1.size as int));
    assert(mid.blocks[b1].wf());
    if block_fits(mid.cur(), l2) {
        lemma_align_padding(mid.cur().base + mid.cur().len, l2.align as int);
        assert(p2.addr == mid.cur().base + mid.cur().len + block_alloc_pad(mid.cur(), l2));
        if b1 == mid.n() - 1 {
            assert(p1.addr + l1.size <= mid.cur().base + mid.cur().len);
        } else {
            assert(mid.blocks[b1].end() <= mid.blocks[mid.n() - 1].base);
            assert(p1.addr + l1.size <= mid.blocks[b1].end());
        }
    } else {
        lemma_align_padding(mid.next_base, l2.align as int);
        assert(mid.blocks[b1].end() <= mid.next_base);
        assert(p1.addr + l1.size <= mid.blocks[b1].end());
        assert(p2.addr >= mid.next_base);
    }
}

/// A reallocation whose target is the current block's head allocation,
/// already aligned for the new layout, and which fits the block after the
/// head is rewound, keeps its address: the new placement lands exactly
/// where the old allocation was, so no bytes move.
pub proof fn lemma_realloc_head_stays_in_place(
    pre: ArenaModel,
    post: ArenaModel,
    ptr: ArenaPtr,
    old_layout: Layout,
    new_layout: Layout,
    p: ArenaPtr,
)
    requires
        pre.wf(),
        arena_realloc_ok(pre, post, ptr, old_layout, new_layout, p),
        spec_is_head(pre.cur(), ptr.addr as int, old_layout.size as int),
        (ptr.addr as int) % (new_layout.align as int) == 0,
        block_fits(rewind(pre.cur(), old_layout.size as int), new_layout),
    ensures
        p.addr == ptr.addr,
        p.block_index as int == pre.n() - 1,
        post.cur().len == (pre.cur().len - old_layout.size) + new_layout.size,
{
    let src = rewind(pre.cur(), old_layout.size as int);
    assert(pre.cur().base + src.len == ptr.addr);
    assert(block_alloc_pad(src, new_layout) == 0);
}

/// A reallocation of an allocation that is not the current block's head
/// places the request beyond the cursor: the new range is disjoint from
/// the abandoned old region, which stays in place, bytes unchanged, until
/// a scope reset reclaims it.
pub proof fn lemma_realloc_non_head_leaves_old_region(
    pre: ArenaModel,
    post: ArenaModel,
    ptr: ArenaPtr,
    old_layout: Layout,
    new_layout: Layout,
    p: ArenaPtr,
)
    requires
        pre.wf(),
        new_layout.wf(),
        arena_realloc_ok(pre, post, ptr, old_layout, new_layout, p),
        ptr_live(pre, ptr, old_layout.size as int),
        !spec_is_head(pre.cur(), ptr.addr as int, old_layout.size as int),
    ensures
        ptr.addr + old_layout.size <= p.addr,
        forall|j: int|
            0 <= j < old_layout.size ==> post.blocks[ptr.block_index as int].bytes[#[trigger] (
            ptr.offset + j)] == pre.blocks[ptr.block_index as int].bytes[ptr.offset + j],
{
    let b = ptr.block_index as int;
    assert(pre.blocks[b].wf());
    if block_fits(pre.cur(), new_layout) {
        lemma_align_padding(pre.cur().base + pre.cur().len, new_layout.align as int);
        assert(p.addr == pre.cur().base + pre.cur().len + block_alloc_pad(pre.cur(), new_layout));
        if b == pre.n() - 1 {
            assert(ptr.addr + old_layout.size <= pre.cur().base + pre.cur().len);
            assert forall|j: int|
                0 <= j < old_layout.size implies post.blocks[b].bytes[#[trigger] (ptr.offset + j)]
                == pre.blocks[b].bytes[ptr.offset + j] by {
                assert(ptr.offset + j < p.offset);
                assert(post.cur().bytes[ptr.offset + j] == pre.cur().bytes[ptr.offset + j]);
            }
        } else {
            assert(pre.blocks[b].end() <= pre.blocks[pre.n() - 1].base);
            assert(ptr.addr + old_layout.size <= pre.blocks[b].end());
            assert(post.blocks[b] == pre.blocks[b]);
        }
    } else {
        lemma_align_padding(pre.next_base, new_layout.align as int);
        assert(pre.blocks[b].end() <= pre.next_base);
        assert(ptr.addr + old_layout.size <= pre.blocks[b].end());
        assert(p.addr >= pre.next_base);
        assert(post.blocks[b] == pre.blocks[b]);
    }
}

/// When the current block cannot satisfy a request, exactly one block is
/// appended, with capacity at least twice the previous current block's
/// and at least the request's size plus its alignment.
pub proof fn lemma_new_block_growth(pre: ArenaModel, post: ArenaModel, layout: Layout, p: ArenaPtr)
    requires
        pre.wf(),
        layout.wf(),
        arena_alloc_ok(pre, post, layout, p),
        !block_fits(pre.cur(), layout),
    ensures
        post.n() == pre.n() + 1,
        post.cur().cap() >= 2 * pre.cur().cap(),
        post.cur().cap() >= layout.size + layout.align,
{
    assert(post.cur() == block_bump(zero_block(pre.next_base, grown_cap(pre, layout)), layout));
}

/// Among the blocks a restore removes, the newest has the largest
/// capacity: capacities never decrease along the sequence, so keeping the
/// last removed block keeps a largest one.
pub proof fn lemma_retained_spare_is_largest(pre: ArenaModel, chk: ScopeCheckpoint)
    requires
        pre.wf(),
        1 <= chk.block_count < pre.n(),
    ensures
        forall|i: int|
            chk.block_count <= i < pre.n() ==> (#[trigger] pre.blocks[i]).cap() <= pre.blocks[
                pre.n() - 1
            ].cap(),
{
    assert forall|i: int|
        chk.block_count <= i < pre.n() implies (#[trigger] pre.blocks[i]).cap() <= pre.blocks[
        pre.n() - 1
    ].cap() by {
        assert(pre.blocks[i].cap() <= pre.blocks[pre.n() - 1].cap());
    }
}

} // verus!
