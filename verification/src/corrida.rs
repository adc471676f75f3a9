//! A bump arena: values are placed one after another in large blocks and live
//! until the arena itself goes away.
//!
//! Addresses are modelled as byte offsets counted from the start of a block. A
//! `Chain` keeps the cursor of every block that was opened and decides where a
//! request goes; it holds no memory, so that whoever holds the memory can follow
//! it. `Corrida` is a chain together with the values that were put into it: for
//! each value it accepts it proves that the slot the chain chose is aligned, lies
//! inside its block and overlaps no other slot. The values themselves are
//! reached through the handle that `allocate` returns; a handle never changes
//! the value it stands for.

use vstd::arithmetic::div_mod::{lemma_fundamental_div_mod, lemma_mod_multiples_basic, lemma_small_mod};
use vstd::prelude::*;
use vstd::layout::{align_of, layout_for_type_is_valid, size_of};

verus! {

/// Size in bytes of the blocks of an arena for which no size was asked.
pub const DEFAULT_BLOCK_SIZE: usize = 4096;

/// Blocks start at a multiple of this many bytes.
pub const BLOCK_MIN_ALIGN: usize = 128;

/// The block has no room for the request.
#[derive(Debug, Clone, Copy)]
pub struct AllocError {}

/// The first offset at or after `cursor` that is a multiple of `align`.
pub open spec fn align_up(cursor: int, align: int) -> int
    recommends
        cursor >= 0,
        align > 0,
{
    cursor + (align - cursor % align) % align
}

/// Two to the power `e`.
pub open spec fn pow2(e: nat) -> nat
    decreases e,
{
    if e == 0 {
        1
    } else {
        2 * pow2((e - 1) as nat)
    }
}

/// `p` is the least power of two that is not below `n`.
pub open spec fn is_next_power_of_two(p: int, n: int) -> bool {
    &&& p >= n
    &&& exists|e: nat| p == #[trigger] pow2(e)
    &&& (p == 1 || p < 2 * n)
}

/// Cursor and end of one block, as offsets from the block's start.
#[derive(Clone, Copy)]
pub struct BlockMeta {
    cur_ptr: usize,
    block_end: usize,
}

impl BlockMeta {
    /// Offset of the first free byte.
    pub closed spec fn cursor(&self) -> int {
        self.cur_ptr as int
    }

    /// Offset one past the last byte of the block.
    pub closed spec fn end(&self) -> int {
        self.block_end as int
    }

    /// The cursor never passes the end.
    pub closed spec fn wf(&self) -> bool {
        self.cur_ptr <= self.block_end
    }

    /// A request of `size` bytes at alignment `align` fits behind the cursor.
    pub open spec fn fits(&self, size: int, align: int) -> bool {
        align_up(self.cursor(), align) + size <= self.end()
    }

    /// Opens an empty block of `block_size` bytes.
    pub fn new(block_size: usize) -> (block: Self)
        ensures
            block.wf(),
            block.cursor() == 0,
            block.end() == block_size,
    {
        BlockMeta { cur_ptr: 0, block_end: block_size }
    }

    /// Takes `size` bytes at the next offset that is a multiple of `align`, and
    /// moves the cursor behind them. Fails, leaving the block as it was, exactly
    /// when they do not fit.
    pub fn allocate(&mut self, size: usize, align: usize) -> (slot: Result<usize, AllocError>)
        requires
            old(self).wf(),
            align > 0,
        ensures
            final(self).wf(),
            final(self).end() == old(self).end(),
            slot is Ok <==> old(self).fits(size as int, align as int),
            slot is Ok ==> slot->Ok_0 as int == align_up(old(self).cursor(), align as int),
            slot is Ok ==> slot->Ok_0 as int % align as int == 0,
            slot is Ok ==> final(self).cursor() == slot->Ok_0 as int + size,
            slot is Err ==> final(self).cursor() == old(self).cursor(),
    {
        let rem: usize = self.cur_ptr % align;
        let align_offset: usize = if rem == 0 {
            0
        } else {
            align - rem
        };
        proof {
            lemma_align_up(self.cur_ptr as int, align as int);
        }
        let room: usize = self.block_end - self.cur_ptr;
        if align_offset > room {
            return Err(AllocError {});
        }
        if size > room - align_offset {
            return Err(AllocError {});
        }
        let slot_start: usize = self.cur_ptr + align_offset;
        self.cur_ptr = slot_start + size;
        Ok(slot_start)
    }
}

/// `align_up` moves the cursor by less than `align`, to a multiple of `align`.
pub proof fn lemma_align_up(cursor: int, align: int)
    requires
        cursor >= 0,
        align > 0,
    ensures
        align_up(cursor, align) % align == 0,
        cursor <= align_up(cursor, align) < cursor + align,
        cursor % align == 0 ==> align_up(cursor, align) == cursor,
        cursor % align != 0 ==> align_up(cursor, align) == cursor + align - cursor % align,
{
    let rem = cursor % align;
    let q = cursor / align;
    lemma_fundamental_div_mod(cursor, align);
    if rem == 0 {
        assert((align - rem) % align == 0) by {
            lemma_mod_multiples_basic(1, align);
        }
        assert(cursor == align * q);
        assert(cursor % align == 0);
    } else {
        assert(0 < align - rem < align);
        assert((align - rem) % align == align - rem) by {
            lemma_small_mod((align - rem) as nat, align as nat);
        }
        assert(cursor + align - rem == (q + 1) * align) by (nonlinear_arith)
            requires
                cursor == align * q + rem,
        ;
        lemma_mod_multiples_basic(q + 1, align);
    }
}

/// An offset that is aligned for a value is an aligned address for it, where
/// the block starts at a multiple of `BLOCK_MIN_ALIGN` and the alignment divides
/// that number.
pub proof fn lemma_aligned_offset_is_aligned_address(block_start: int, offset: int, align: int)
    requires
        block_start >= 0,
        offset >= 0,
        align > 0,
        block_start % BLOCK_MIN_ALIGN as int == 0,
        BLOCK_MIN_ALIGN as int % align == 0,
        offset % align == 0,
    ensures
        (block_start + offset) % align == 0,
{
    let blocks = block_start / BLOCK_MIN_ALIGN as int;
    let parts = BLOCK_MIN_ALIGN as int / align;
    let slots = offset / align;
    lemma_fundamental_div_mod(block_start, BLOCK_MIN_ALIGN as int);
    lemma_fundamental_div_mod(BLOCK_MIN_ALIGN as int, align);
    lemma_fundamental_div_mod(offset, align);
    assert(block_start + offset == (blocks * parts + slots) * align) by (nonlinear_arith)
        requires
            block_start == 128 * blocks,
            128 == align * parts,
            offset == align * slots,
    ;
    lemma_mod_multiples_basic(blocks * parts + slots, align);
}

/// Where a value sits: in which block, counted from the first one opened, and at
/// which offset from that block's start.
pub struct Placement {
    pub block: nat,
    pub offset: nat,
}

/// The least power of two that is not below `size`.
pub fn next_power_of_two(size: usize) -> (p: usize)
    requires
        size <= isize::MAX,
    ensures
        is_next_power_of_two(p as int, size as int),
{
    let mut p: usize = 1;
    let ghost mut e: nat = 0;
    while p < size
        invariant
            size <= isize::MAX,
            p >= 1,
            p == pow2(e),
            p == 1 || p < 2 * size,
        decreases 2 * size - p,
    {
        p = p * 2;
        proof {
            e = e + 1;
        }
    }
    p
}

/// Where a request was put: in which block and at which offset, and the size of
/// the block that was opened for it, if one was.
pub struct Placed {
    pub block: usize,
    pub offset: usize,
    pub opened: Option<usize>,
}

/// The blocks of an arena, oldest first, and the size of the blocks that are
/// opened when the newest is full. It decides where a request goes; it holds no
/// memory itself.
pub struct Chain {
    blocks: Vec<BlockMeta>,
    default_block_size: usize,
}

impl Chain {
    /// The number of blocks opened so far.
    pub closed spec fn block_count(&self) -> nat {
        self.blocks@.len()
    }

    /// Size in bytes of block `b`.
    pub closed spec fn block_size(&self, b: int) -> int {
        self.blocks@[b].end()
    }

    /// Offset of the first free byte of block `b`.
    pub closed spec fn cursor_of(&self, b: int) -> int {
        self.blocks@[b].cursor()
    }

    /// Offset of the first free byte of the newest block.
    pub open spec fn cursor(&self) -> int {
        self.cursor_of(self.block_count() - 1)
    }

    /// The size of the first block, and of every later one that no request asks
    /// more of.
    pub closed spec fn nominal_block_size(&self) -> int {
        self.default_block_size as int
    }

    /// There is a block, and no block's cursor has passed its end.
    pub closed spec fn wf(&self) -> bool {
        &&& self.blocks@.len() >= 1
        &&& forall|b: int| 0 <= b < self.blocks@.len() ==> (#[trigger] self.blocks@[b]).wf()
    }

    /// A request of `size` bytes at alignment `align` fits into the newest block,
    /// behind its cursor.
    pub open spec fn fits(&self, size: int, align: int) -> bool {
        align_up(self.cursor(), align) + size <= self.block_size(self.block_count() - 1)
    }

    /// The size of the block that is opened for a request of `size` bytes: the
    /// nominal size, or the request rounded up to a power of two where that is
    /// larger.
    pub open spec fn opens(&self, size: int, block_size: int) -> bool {
        exists|p: int|
            is_next_power_of_two(p, size) && block_size == if self.nominal_block_size() >= p {
                self.nominal_block_size()
            } else {
                p
            }
    }

    /// Starts a chain with one empty block of `default_block_size` bytes, or of
    /// 4096 where none is given. Blocks opened later have that size too, unless a
    /// request asks for more.
    pub fn new(default_block_size: Option<usize>) -> (chain: Self)
        ensures
            chain.wf(),
            chain.block_count() == 1,
            chain.block_size(0) == chain.nominal_block_size(),
            chain.cursor() == 0,
            chain.nominal_block_size() == match default_block_size {
                Some(n) => n as int,
                None => DEFAULT_BLOCK_SIZE as int,
            },
    {
        let block_size: usize = match default_block_size {
            Some(n) => n,
            None => DEFAULT_BLOCK_SIZE,
        };
        let mut blocks: Vec<BlockMeta> = Vec::new();
        blocks.push(BlockMeta::new(block_size));
        Chain { blocks, default_block_size: block_size }
    }

    /// The number of blocks opened so far.
    pub fn num_blocks(&self) -> (n: usize)
        ensures
            n == self.block_count(),
    {
        self.blocks.len()
    }

    /// The bytes of the newest block that are taken, and the size of that block.
    pub fn newest_block(&self) -> (used_of: (usize, usize))
        requires
            self.wf(),
        ensures
            used_of.0 == self.cursor(),
            used_of.1 == self.block_size(self.block_count() - 1),
    {
        let block = &self.blocks[self.blocks.len() - 1];
        (block.cur_ptr, block.block_end)
    }

    /// Finds room for `size` bytes at alignment `align`: the next aligned slot of
    /// the newest block, or, where that block has no room for them, the first
    /// slot of a block that is opened for them. The blocks that were there keep
    /// their size, and all but the newest their cursor.
    pub fn place(&mut self, size: usize, align: usize) -> (placed: Placed)
        requires
            old(self).wf(),
            align > 0,
            size <= isize::MAX,
        ensures
            final(self).wf(),
            final(self).nominal_block_size() == old(self).nominal_block_size(),
            placed.block == final(self).block_count() - 1,
            placed.offset as int % align as int == 0,
            placed.offset + size <= final(self).block_size(placed.block as int),
            final(self).cursor() == placed.offset + size,
            forall|b: int| 0 <= b < old(self).block_count() ==> final(self).block_size(b) == old(self).block_size(b),
            forall|b: int| 0 <= b < old(self).block_count() - 1 ==> final(self).cursor_of(b) == old(self).cursor_of(b),
            old(self).fits(size as int, align as int) ==> {
                &&& final(self).block_count() == old(self).block_count()
                &&& placed.offset == align_up(old(self).cursor(), align as int)
                &&& placed.opened is None
            },
            !old(self).fits(size as int, align as int) ==> {
                &&& final(self).block_count() == old(self).block_count() + 1
                &&& final(self).cursor_of(old(self).block_count() - 1) == old(self).cursor()
                &&& placed.offset == 0
                &&& placed.opened == Some(final(self).block_size(placed.block as int) as usize)
                &&& old(self).opens(size as int, final(self).block_size(placed.block as int))
            },
    {
        let last: usize = self.blocks.len() - 1;
        let mut block: BlockMeta = self.blocks[last];
        match block.allocate(size, align) {
            Ok(offset) => {
                self.blocks.set(last, block);
                Placed { block: last, offset, opened: None }
            },
            Err(_) => {
                let pow: usize = next_power_of_two(size);
                let block_size: usize = if self.default_block_size >= pow {
                    self.default_block_size
                } else {
                    pow
                };
                let mut fresh: BlockMeta = BlockMeta::new(block_size);
                proof {
                    lemma_align_up(0, align as int);
                }
                let fresh_slot = fresh.allocate(size, align);
                assert(fresh_slot is Ok);
                self.blocks.push(fresh);
                assert(is_next_power_of_two(pow as int, size as int));
                Placed { block: last + 1, offset: 0, opened: Some(block_size) }
            },
        }
    }
}

/// A bump arena for values of one type. Its view is the sequence of the values it
/// holds, in the order in which they came; the handle of a value is its place in
/// that sequence.
pub struct Corrida<T> {
    slots: Vec<T>,
    chain: Chain,
    placements: Ghost<Seq<Placement>>,
}

impl<T> View for Corrida<T> {
    type V = Seq<T>;

    closed spec fn view(&self) -> Seq<T> {
        self.slots@
    }
}

impl<T> Corrida<T> {
    /// The number of blocks opened so far.
    pub closed spec fn block_count(&self) -> nat {
        self.chain.block_count()
    }

    /// Size in bytes of block `b`.
    pub closed spec fn block_size(&self, b: int) -> int {
        self.chain.block_size(b)
    }

    /// The size of the first block, and of every later one that no request asks
    /// more of.
    pub closed spec fn nominal_block_size(&self) -> int {
        self.chain.nominal_block_size()
    }

    /// Offset of the first free byte of the newest block.
    pub closed spec fn cursor(&self) -> int {
        self.chain.cursor()
    }

    /// Where the value with handle `h` was put.
    pub closed spec fn placement(&self, h: int) -> Placement {
        self.placements@[h]
    }

    /// The slot at `p` is aligned for `T` and lies inside its block.
    pub open spec fn well_placed(&self, p: Placement) -> bool {
        &&& p.block < self.block_count()
        &&& p.offset as int % align_of::<T>() as int == 0
        &&& p.offset + size_of::<T>() <= self.block_size(p.block as int)
    }

    /// The slot at `p` ends before the slot at `q` begins: in an earlier block, or
    /// further to the front of the same one.
    pub open spec fn precedes(p: Placement, q: Placement) -> bool {
        p.block < q.block || (p.block == q.block && p.offset + size_of::<T>() <= q.offset)
    }

    /// A value of `T` fits into the newest block, behind its cursor.
    pub open spec fn fits(&self) -> bool {
        align_up(self.cursor(), align_of::<T>() as int) + size_of::<T>() <= self.block_size(self.block_count() - 1)
    }

    /// The size of the block that is opened for a value of `T`: the nominal size,
    /// or the value's size rounded up to a power of two where that is larger.
    pub open spec fn opens(&self, block_size: int) -> bool {
        exists|p: int|
            is_next_power_of_two(p, size_of::<T>() as int) && block_size == if self.nominal_block_size() >= p {
                self.nominal_block_size()
            } else {
                p
            }
    }

    /// Every value has a slot of its own: aligned, inside a block, behind the slots
    /// of all values that came before it and in front of its block's cursor.
    pub closed spec fn wf(&self) -> bool {
        &&& self.chain.wf()
        &&& self.placements@.len() == self.slots@.len()
        &&& forall|h: int|
            0 <= h < self.placements@.len() ==> {
                &&& self.well_placed(#[trigger] self.placements@[h])
                &&& self.placements@[h].offset + size_of::<T>() <= self.chain.cursor_of(self.placements@[h].block as int)
            }
        &&& forall|h1: int, h2: int|
            0 <= h1 < h2 < self.placements@.len() ==> Self::precedes(
                #[trigger] self.placements@[h1],
                #[trigger] self.placements@[h2],
            )
    }

    /// Creates an arena with one empty block of `default_block_size` bytes, or of
    /// 4096 where none is given. Blocks opened later have that size too, unless a
    /// value asks for more.
    pub fn new(default_block_size: Option<usize>) -> (arena: Self)
        ensures
            arena.wf(),
            arena@.len() == 0,
            arena.block_count() == 1,
            arena.block_size(0) == arena.nominal_block_size(),
            arena.cursor() == 0,
            arena.nominal_block_size() == match default_block_size {
                Some(n) => n as int,
                None => DEFAULT_BLOCK_SIZE as int,
            },
    {
        Corrida { slots: Vec::new(), chain: Chain::new(default_block_size), placements: Ghost(Seq::empty()) }
    }

    /// The number of values in an arena is one that the machine can count.
    pub proof fn lemma_len_fits(&self)
        ensures
            self@.len() <= usize::MAX,
    {
        assert(self.slots@.len() == self.slots.len());
    }

    /// The number of values in the arena.
    pub fn len(&self) -> (n: usize)
        ensures
            n == self@.len(),
    {
        self.slots.len()
    }

    /// Whether the arena holds no value yet.
    pub fn is_empty(&self) -> (b: bool)
        ensures
            b == (self@.len() == 0),
    {
        self.slots.len() == 0
    }

    /// The number of blocks opened so far.
    pub fn num_blocks(&self) -> (n: usize)
        ensures
            n == self.block_count(),
    {
        self.chain.num_blocks()
    }

    /// The bytes of the newest block that are taken, and the size of that block.
    pub fn newest_block(&self) -> (used_of: (usize, usize))
        requires
            self.wf(),
        ensures
            used_of.0 == self.cursor(),
            used_of.1 == self.block_size(self.block_count() - 1),
    {
        self.chain.newest_block()
    }

    /// Puts `fighter` into the arena and returns its handle.
    ///
    /// The value takes the next aligned slot of the newest block. Where that block
    /// has no room for it, a block is opened first, and the value takes its first
    /// slot: a block of the nominal size, or of the value's size rounded up to a
    /// power of two where that is larger. Values that are already in the arena
    /// keep their handles and their slots, and the new slot lies behind all of
    /// theirs.
    pub fn allocate(&mut self, fighter: T) -> (handle: usize)
        requires
            old(self).wf(),
        ensures
            final(self).wf(),
            handle == old(self)@.len(),
            final(self)@ == old(self)@.push(fighter),
            final(self).nominal_block_size() == old(self).nominal_block_size(),
            forall|h: int| 0 <= h < old(self)@.len() ==> final(self).placement(h) == old(self).placement(h),
            forall|h: int|
                0 <= h < old(self)@.len() ==> Self::precedes(#[trigger] final(self).placement(h), final(self).placement(handle as int)),
            final(self).well_placed(final(self).placement(handle as int)),
            forall|b: int| 0 <= b < old(self).block_count() ==> final(self).block_size(b) == old(self).block_size(b),
            final(self).cursor() == final(self).placement(handle as int).offset + size_of::<T>(),
            final(self).placement(handle as int).block == final(self).block_count() - 1,
            old(self).fits() ==> {
                &&& final(self).block_count() == old(self).block_count()
                &&& final(self).placement(handle as int).offset == align_up(old(self).cursor(), align_of::<T>() as int)
            },
            !old(self).fits() ==> {
                &&& final(self).block_count() == old(self).block_count() + 1
                &&& final(self).placement(handle as int).offset == 0
                &&& old(self).opens(final(self).block_size(old(self).block_count() as int))
            },
    {
        layout_for_type_is_valid::<T>();
        let size: usize = core::mem::size_of::<T>();
        let align: usize = core::mem::align_of::<T>();
        let ghost old_placements = self.placements@;
        let placed = self.chain.place(size, align);
        let ghost p = Placement { block: placed.block as nat, offset: placed.offset as nat };
        proof {
            self.placements@ = old_placements.push(p);
        }
        self.slots.push(fighter);
        proof {
            assert forall|h: int| 0 <= h < self.placements@.len() implies {
                &&& self.well_placed(#[trigger] self.placements@[h])
                &&& self.placements@[h].offset + size_of::<T>() <= self.chain.cursor_of(self.placements@[h].block as int)
            } by {
                if h < old_placements.len() {
                    assert(self.placements@[h] == old_placements[h]);
                    assert(old(self).well_placed(old_placements[h]));
                }
            }
            assert forall|h1: int, h2: int| 0 <= h1 < h2 < self.placements@.len() implies Self::precedes(
                #[trigger] self.placements@[h1],
                #[trigger] self.placements@[h2],
            ) by {
                assert(self.placements@[h1] == old_placements[h1]);
                if h2 < old_placements.len() {
                    assert(self.placements@[h2] == old_placements[h2]);
                } else {
                    assert(old(self).well_placed(old_placements[h1]));
                }
            }
        }
        self.slots.len() - 1
    }

    /// The value with handle `handle`.
    pub fn get(&self, handle: usize) -> (value: &T)
        requires
            handle < self@.len(),
        ensures
            *value == self@[handle as int],
    {
        &self.slots[handle]
    }

    /// The value with handle `handle`, to be changed in place. No other value, and
    /// no slot, changes with it.
    pub fn get_mut(&mut self, handle: usize) -> (value: &mut T)
        requires
            handle < old(self)@.len(),
        ensures
            *value == old(self)@[handle as int],
            final(self)@ == old(self)@.update(handle as int, *final(value)),
            old(self).wf() ==> final(self).wf(),
            final(self).nominal_block_size() == old(self).nominal_block_size(),
            final(self).block_count() == old(self).block_count(),
            final(self).cursor() == old(self).cursor(),
            forall|h: int| final(self).placement(h) == old(self).placement(h),
            forall|b: int| final(self).block_size(b) == old(self).block_size(b),
    {
        &mut self.slots[handle]
    }
}

} // verus!
