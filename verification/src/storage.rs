//! A `Storage` takes insertions in constant time in the worst case: it never
//! moves what it already holds. Every thread has its own storage and is the
//! only one to write in it.
use crate::list::AppendList;
use vstd::prelude::*;

verus! {

/// How many elements one block holds.
pub const BLOCK_SIZE: usize = 10_000;

/// A contiguous buffer of at most `BLOCK_SIZE` elements, filled from the front.
pub struct Block<T> {
    data: Vec<T>,
}

impl<T> View for Block<T> {
    type V = Seq<T>;

    closed spec fn view(&self) -> Seq<T> {
        self.data@
    }
}

impl<T> Default for Block<T> {
    fn default() -> (block: Self)
        ensures
            block@ == Seq::<T>::empty(),
    {
        Block::new()
    }
}

impl<T> Block<T> {
    /// An empty block with room for `BLOCK_SIZE` elements.
    pub fn new() -> (block: Self)
        ensures
            block@ == Seq::<T>::empty(),
    {
        Block { data: Vec::with_capacity(BLOCK_SIZE) }
    }

    /// The element added last.
    pub fn last(&self) -> (element: Option<&T>)
        ensures
            self@.len() == 0 ==> element is None,
            self@.len() > 0 ==> element == Some(&self@.last()),
    {
        self.data.as_slice().last()
    }

    /// Adds `element` at the end of a block that has room left.
    pub fn push(&mut self, element: T)
        requires
            old(self)@.len() < BLOCK_SIZE,
        ensures
            final(self)@ == old(self)@.push(element),
    {
        self.data.push(element)
    }

    /// Takes out the element added last.
    pub fn pop(&mut self) -> (element: Option<T>)
        ensures
            old(self)@.len() == 0 ==> element is None && final(self)@ == old(self)@,
            old(self)@.len() > 0 ==> element == Some(old(self)@.last()) && final(self)@ == old(
                self,
            )@.drop_last(),
    {
        self.data.pop()
    }

    /// Whether no room is left.
    pub fn is_full(&self) -> (full: bool)
        ensures
            full == (self@.len() == BLOCK_SIZE),
    {
        self.data.len() == BLOCK_SIZE
    }

    /// Whether the block holds nothing.
    pub fn is_empty(&self) -> (empty: bool)
        ensures
            empty == (self@.len() == 0),
    {
        self.data.len() == 0
    }

    /// Every element, in the order of insertion.
    pub fn iter(&self) -> (items: Vec<&T>)
        ensures
            items@.unref() == self@,
    {
        let mut items: Vec<&T> = Vec::new();
        let mut i: usize = 0;
        while i < self.data.len()
            invariant
                i <= self.data@.len(),
                items@.unref() == self.data@.take(i as int),
            decreases self.data@.len() - i,
        {
            let ghost seen = items@.unref();
            items.push(&self.data[i]);
            assert(items@.unref() == seen.push(self.data@[i as int]));
            i += 1;
            assert(self.data@.take(i as int) == seen.push(self.data@[i - 1]));
        }
        assert(self.data@.take(i as int) == self.data@);
        items
    }
}

/// What a chain of blocks holds: the blocks from the oldest, which is the
/// last, to the newest, which is the first, each from its front to its end.
pub open spec fn concat_blocks<T>(blocks: Seq<Seq<T>>) -> Seq<T>
    decreases blocks.len(),
{
    if blocks.len() == 0 {
        Seq::empty()
    } else {
        concat_blocks(blocks.skip(1)) + blocks[0]
    }
}

/// A log of elements in the order of insertion.
///
/// Its view is the sequence of the elements, oldest first.
pub struct Storage<T> {
    data: AppendList<Block<T>>,
}

impl<T> View for Storage<T> {
    type V = Seq<T>;

    open spec fn view(&self) -> Seq<T> {
        concat_blocks(self.blocks())
    }
}

impl<T> Default for Storage<T> {
    fn default() -> (storage: Self)
        ensures
            storage.wf(),
            storage.blocks() == seq![Seq::<T>::empty()],
            storage@ == Seq::<T>::empty(),
    {
        Storage::new()
    }
}

impl<T> Storage<T> {
    /// What each block holds, the newest block first.
    pub closed spec fn blocks(&self) -> Seq<Seq<T>> {
        Seq::new(self.data@.len(), |i: int| self.data@[i]@)
    }

    /// No block is over its capacity, the blocks behind the newest are full,
    /// and only a block that stands alone is empty.
    pub open spec fn wf(&self) -> bool {
        &&& forall|i: int|
            0 <= i < self.blocks().len() ==> (#[trigger] self.blocks()[i]).len() <= BLOCK_SIZE
        &&& forall|i: int|
            1 <= i < self.blocks().len() ==> (#[trigger] self.blocks()[i]).len() == BLOCK_SIZE
        &&& self.blocks().len() >= 2 ==> self.blocks()[0].len() > 0
    }

    /// A storage that holds nothing, in one block.
    pub fn new() -> (storage: Self)
        ensures
            storage.wf(),
            storage.blocks() == seq![Seq::<T>::empty()],
            storage@ == Seq::<T>::empty(),
    {
        let first_block = Block::new();
        let mut list = AppendList::new();
        list.push_front(first_block);
        let storage = Storage { data: list };
        proof {
            reveal_with_fuel(concat_blocks, 2);
            assert(storage.blocks() =~= seq![Seq::<T>::empty()]);
        }
        storage
    }

    /// Adds `element` at the end: in the newest block, or in a fresh block
    /// when the newest one is full or there is none. What the storage holds
    /// is not moved.
    pub fn push(&mut self, element: T)
        requires
            old(self).wf(),
        ensures
            final(self).wf(),
            final(self).blocks() == (if old(self).blocks().len() == 0 || old(self).blocks()[0].len()
                == BLOCK_SIZE {
                seq![seq![element]] + old(self).blocks()
            } else {
                old(self).blocks().update(0, old(self).blocks()[0].push(element))
            }),
            final(self)@ == old(self)@.push(element),
    {
        let space_needed = match self.data.front() {
            None => true,
            Some(block) => block.is_full(),
        };
        if space_needed {
            self.data.push_front(Block::new());
        }
        let ghost before = self.blocks();
        assert(space_needed ==> before =~= seq![Seq::<T>::empty()] + old(self).blocks());
        assert(!space_needed ==> before =~= old(self).blocks());
        assert(before[0] == self.data@[0]@);
        assert(before[0].len() < BLOCK_SIZE) by {
            if !space_needed {
                assert(old(self).blocks()[0].len() <= BLOCK_SIZE);
            }
        }
        let head = self.data.front_mut().unwrap();
        head.push(element);
        proof {
            let after = self.blocks();
            assert(after =~= before.update(0, before[0].push(element)));
            assert(after.skip(1) =~= before.skip(1));
            if space_needed {
                assert(before.skip(1) =~= old(self).blocks());
                assert(after =~= seq![seq![element]] + old(self).blocks());
            }
            assert(concat_blocks(after) == concat_blocks(before).push(element));
            reveal_with_fuel(concat_blocks, 2);
        }
    }

    /// The element added last.
    pub fn last(&self) -> (element: Option<&T>)
        requires
            self.wf(),
        ensures
            self@.len() == 0 ==> element is None,
            self@.len() > 0 ==> element == Some(&self@.last()),
    {
        proof {
            lemma_concat_len(self.blocks());
        }
        match self.data.front() {
            None => None,
            Some(block) => block.last(),
        }
    }

    /// Takes out the element added last, and drops the newest block when
    /// that empties it.
    pub fn pop(&mut self) -> (element: Option<T>)
        requires
            old(self).wf(),
        ensures
            final(self).wf(),
            final(self).blocks() == (if old(self).blocks().len() == 0 {
                old(self).blocks()
            } else if old(self).blocks()[0].len() <= 1 {
                old(self).blocks().skip(1)
            } else {
                old(self).blocks().update(0, old(self).blocks()[0].drop_last())
            }),
            old(self)@.len() == 0 ==> element is None && final(self)@ == old(self)@,
            old(self)@.len() > 0 ==> element == Some(old(self)@.last()) && final(self)@ == old(
                self,
            )@.drop_last(),
    {
        proof {
            lemma_concat_len(self.blocks());
        }
        if self.data.is_empty() {
            None
        } else {
            let ghost before = self.blocks();
            let first_block = self.data.front_mut().unwrap();
            let element = first_block.pop();
            let emptied = first_block.is_empty();
            let ghost popped = self.blocks();
            proof {
                assert(popped =~= before.update(
                    0,
                    if before[0].len() == 0 {
                        before[0]
                    } else {
                        before[0].drop_last()
                    },
                ));
                assert(popped.skip(1) =~= before.skip(1));
            }
            if emptied {
                self.data.pop_front();
                assert(self.blocks() =~= before.skip(1));
            }
            proof {
                lemma_concat_len(before.skip(1));
            }
            element
        }
    }

    /// Forgets every element, and keeps one empty block.
    pub fn reset(&mut self)
        ensures
            final(self).wf(),
            final(self).blocks() == seq![Seq::<T>::empty()],
            final(self)@ == Seq::<T>::empty(),
    {
        self.data.reset();
        let first_block = Block::new();
        self.data.push_front(first_block);
        proof {
            reveal_with_fuel(concat_blocks, 2);
            assert(self.blocks() =~= seq![Seq::<T>::empty()]);
        }
    }

    /// Every element, in the order of insertion.
    pub fn iter(&self) -> (items: Vec<&T>)
        ensures
            items@.unref() == self@,
    {
        let blocks = self.data.iter();
        let mut items: Vec<&T> = Vec::new();
        let mut remaining: usize = blocks.len();
        assert(self.blocks().skip(remaining as int) =~= Seq::<Seq<T>>::empty());
        while remaining > 0
            invariant
                remaining <= blocks@.len(),
                blocks@.unref() == self.data@,
                self.blocks().len() == blocks@.len(),
                items@.unref() == concat_blocks(self.blocks().skip(remaining as int)),
            decreases remaining,
        {
            remaining -= 1;
            let block = blocks[remaining];
            let ghost before = items@.unref();
            let mut i: usize = 0;
            while i < block.data.len()
                invariant
                    i <= block.data@.len(),
                    items@.unref() == before + block.data@.take(i as int),
                decreases block.data@.len() - i,
            {
                let ghost seen = items@.unref();
                items.push(&block.data[i]);
                assert(items@.unref() == seen.push(block.data@[i as int]));
                i += 1;
                assert(block.data@.take(i as int) == block.data@.take(i - 1).push(
                    block.data@[i - 1],
                ));
            }
            proof {
                assert(block.data@.take(i as int) == block.data@);
                let rest = self.blocks().skip(remaining as int);
                assert(rest.skip(1) =~= self.blocks().skip(remaining + 1));
                assert(blocks@.unref()[remaining as int] == *block);
                assert(rest[0] == block@);
            }
        }
        assert(self.blocks().skip(0) =~= self.blocks());
        items
    }
}

proof fn lemma_concat_len<T>(blocks: Seq<Seq<T>>)
    ensures
        concat_blocks(blocks).len() >= (if blocks.len() == 0 {
            0
        } else {
            blocks[0].len()
        }),
        blocks.len() > 0 && blocks[0].len() > 0 ==> concat_blocks(blocks).last() == blocks[0].last(),
        blocks.len() > 0 && blocks[0].len() > 0 ==> concat_blocks(blocks).drop_last()
            == concat_blocks(blocks.update(0, blocks[0].drop_last())),
        blocks.len() > 0 && blocks[0].len() == 0 ==> concat_blocks(blocks) == concat_blocks(
            blocks.skip(1),
        ),
        blocks.len() == 0 ==> concat_blocks(blocks).len() == 0,
{
    if blocks.len() > 0 && blocks[0].len() > 0 {
        let shorter = blocks.update(0, blocks[0].drop_last());
        assert(shorter.skip(1) =~= blocks.skip(1));
        assert(concat_blocks(blocks).drop_last() =~= concat_blocks(shorter));
    }
}

} // verus!
