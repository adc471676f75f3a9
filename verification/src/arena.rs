//! An arena for values of one type, kept in blocks of a fixed number of slots.
//!
//! A block is filled from its first slot to its last before the next one is
//! opened, and a block that has been opened is never moved, so a value stays
//! where it was put. The handle of a value is the number of values that were in
//! the arena before it.

use vstd::prelude::*;

verus! {

/// The number of slots in a block.
pub const BLOCK_SIZE: usize = 1024;

/// One block of an arena: the values in its slots, first slot first.
pub struct Block<T> {
    data: Vec<T>,
}

impl<T> Block<T> {
    /// The values in the block's slots.
    pub closed spec fn slots(&self) -> Seq<T> {
        self.data@
    }

    /// Opens a block with room for `BLOCK_SIZE` values and none in it.
    fn new() -> (block: Self)
        ensures
            block.slots().len() == 0,
    {
        Self { data: Vec::with_capacity(BLOCK_SIZE) }
    }
}

/// An arena of blocks. Its view is the sequence of its values in the order in
/// which they came.
pub struct Arena<T> {
    blocks: Vec<Block<T>>,
    idx: (usize, usize),
}

impl<T> View for Arena<T> {
    type V = Seq<T>;

    closed spec fn view(&self) -> Seq<T> {
        Seq::new(
            (self.idx.0 * BLOCK_SIZE + self.idx.1) as nat,
            |h: int| self.blocks@[h / BLOCK_SIZE as int].data@[h % BLOCK_SIZE as int],
        )
    }
}

impl<T> Arena<T> {
    /// The blocks before the newest are full, the newest holds as many values as
    /// the second index says, which is one at least in every block but the first,
    /// and the number of values fits the machine.
    pub closed spec fn wf(&self) -> bool {
        &&& self.blocks@.len() == self.idx.0 + 1
        &&& self.idx.1 <= BLOCK_SIZE
        &&& self.idx.0 > 0 ==> self.idx.1 >= 1
        &&& self.idx.0 * BLOCK_SIZE + BLOCK_SIZE <= usize::MAX
        &&& forall|b: int| 0 <= b < self.idx.0 ==> (#[trigger] self.blocks@[b]).data@.len() == BLOCK_SIZE
        &&& self.blocks@[self.idx.0 as int].data@.len() == self.idx.1
    }

    /// The number of blocks that have been opened.
    pub closed spec fn block_count(&self) -> nat {
        self.blocks@.len()
    }

    /// Creates an arena with one block and no value.
    pub fn new() -> (arena: Self)
        ensures
            arena.wf(),
            arena@.len() == 0,
            arena.block_count() == 1,
    {
        let mut blocks: Vec<Block<T>> = Vec::new();
        blocks.push(Block::new());
        Self { blocks, idx: (0, 0) }
    }

    /// The number of values in the arena.
    pub fn len(&self) -> (n: usize)
        requires
            self.wf(),
        ensures
            n == self@.len(),
    {
        let idx = self.idx;
        idx.0 * BLOCK_SIZE + idx.1
    }

    /// Whether the arena holds no value.
    pub fn is_empty(&self) -> (empty: bool)
        requires
            self.wf(),
        ensures
            empty == (self@.len() == 0),
    {
        self.len() == 0
    }

    /// Puts `fighter` into the next free slot and returns its handle. A block is
    /// opened first where the newest one is full. The values that are in the
    /// arena stay as they are.
    pub fn allocate(&mut self, fighter: T) -> (handle: usize)
        requires
            old(self).wf(),
            old(self)@.len() + 2 * BLOCK_SIZE <= usize::MAX,
        ensures
            final(self).wf(),
            handle == old(self)@.len(),
            final(self)@ == old(self)@.push(fighter),
            final(self).block_count() == if old(self)@.len() > 0 && old(self)@.len() % BLOCK_SIZE as nat == 0 {
                old(self).block_count() + 1
            } else {
                old(self).block_count()
            },
    {
        let (mut block_index, mut slot_index): (usize, usize) = self.idx;
        let ghost before = self.blocks@;
        if slot_index == BLOCK_SIZE {
            block_index += 1;
            slot_index = 0;
            self.blocks.push(Block::new());
        }
        let block = &mut self.blocks[block_index];
        block.data.push(fighter);
        slot_index += 1;
        self.idx = (block_index, slot_index);
        proof {
            let old_len = old(self)@.len() as int;
            assert(self@.len() == old_len + 1);
            assert forall|h: int| 0 <= h < old_len + 1 implies self@[h] == old(self)@.push(fighter)[h] by {
                let b = h / BLOCK_SIZE as int;
                let s = h % BLOCK_SIZE as int;
                if h < old_len {
                    if b < block_index {
                        assert(self.blocks@[b] == before[b]);
                    } else {
                        assert(self.blocks@[b].data@[s] == before[b].data@[s]);
                    }
                }
            }
            assert(self@ =~= old(self)@.push(fighter));
        }
        block_index * BLOCK_SIZE + slot_index - 1
    }

    /// The value with handle `handle`.
    pub fn get(&self, handle: usize) -> (value: &T)
        requires
            self.wf(),
            handle < self@.len(),
        ensures
            *value == self@[handle as int],
    {
        &self.blocks[handle / BLOCK_SIZE].data[handle % BLOCK_SIZE]
    }

    /// The value with handle `handle`, to be changed in place. No other value
    /// changes with it.
    pub fn get_mut(&mut self, handle: usize) -> (value: &mut T)
        requires
            old(self).wf(),
            handle < old(self)@.len(),
        ensures
            *value == old(self)@[handle as int],
            final(self).wf(),
            final(self)@ == old(self)@.update(handle as int, *final(value)),
            final(self).block_count() == old(self).block_count(),
    {
        let block = &mut self.blocks[handle / BLOCK_SIZE];
        &mut block.data[handle % BLOCK_SIZE]
    }

    /// Empties the arena: every block but the first is given up, and the first
    /// holds no value any more.
    pub fn reset(&mut self)
        requires
            old(self).wf(),
        ensures
            final(self).wf(),
            final(self)@.len() == 0,
            final(self).block_count() == 1,
    {
        self.blocks.truncate(1);
        let first = &mut self.blocks[0];
        first.data.clear();
        self.idx = (0, 0);
    }
}

} // verus!
