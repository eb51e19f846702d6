//! The bookkeeping record of one page in a buddy region.

use vstd::prelude::*;

verus! {

/// The number of a page, the level of the block it heads, and whether it is taken.
///
/// A page that heads a free block of `2^level` pages is free; a page that
/// heads an allocated block, or lies inside a larger block, is occupied.
#[derive(Clone, Copy)]
pub struct Entry {
    num: u32,
    level: u16,
    occupied: bool,
}

impl Entry {
    /// The page number stored in the record.
    pub closed spec fn spec_num(&self) -> u32 {
        self.num
    }

    /// The level stored in the record.
    pub closed spec fn spec_level(&self) -> u16 {
        self.level
    }

    /// Whether the record is marked occupied.
    pub closed spec fn spec_occupied(&self) -> bool {
        self.occupied
    }

    /// A free level-0 record for page `num` (the number is truncated to 32 bits).
    pub fn new(num: usize) -> (e: Self)
        ensures
            e.spec_num() == num as u32,
            e.spec_level() == 0,
            !e.spec_occupied(),
    {
        Entry { num: num as u32, level: 0, occupied: false }
    }

    pub fn num(&self) -> (r: usize)
        ensures
            r == self.spec_num() as usize,
    {
        self.num as usize
    }

    pub fn level(&self) -> (r: usize)
        ensures
            r == self.spec_level() as usize,
    {
        self.level as usize
    }

    pub fn set_free(&mut self)
        ensures
            !final(self).spec_occupied(),
            final(self).spec_num() == old(self).spec_num(),
            final(self).spec_level() == old(self).spec_level(),
    {
        self.occupied = false;
    }

    pub fn set_occupied(&mut self)
        ensures
            final(self).spec_occupied(),
            final(self).spec_num() == old(self).spec_num(),
            final(self).spec_level() == old(self).spec_level(),
    {
        self.occupied = true;
    }

    /// The number of the page that pairs with this one at its own level.
    pub fn get_buddy(&self) -> (r: usize)
        requires
            self.spec_level() < usize::BITS,
        ensures
            r == (self.spec_num() as usize) ^ (1usize << self.spec_level() as usize),
    {
        self.buddy_on_level(self.level as usize)
    }

    /// The number of the page that pairs with this one at `level`.
    pub fn buddy_on_level(&self, level: usize) -> (r: usize)
        requires
            level < usize::BITS,
        ensures
            r == (self.spec_num() as usize) ^ (1usize << level),
    {
        self.num() ^ (1usize << level)
    }

    pub fn is_free(&self) -> (r: bool)
        ensures
            r == !self.spec_occupied(),
    {
        !self.is_occupied()
    }

    pub fn is_occupied(&self) -> (r: bool)
        ensures
            r == self.spec_occupied(),
    {
        self.occupied
    }

    /// Sets the level (truncated to 16 bits).
    pub fn set_level(&mut self, level: usize)
        ensures
            final(self).spec_level() == level as u16,
            final(self).spec_num() == old(self).spec_num(),
            final(self).spec_occupied() == old(self).spec_occupied(),
    {
        self.level = level as u16;
    }

    /// Whether this page can merge with `buddy`: it is free and on the same level.
    pub fn ready(&self, buddy: &Entry) -> (r: bool)
        requires
            !self.spec_occupied() && self.spec_level() == buddy.spec_level() ==> {
                &&& self.spec_level() < usize::BITS
                &&& buddy.spec_num() as usize == (self.spec_num() as usize) ^ (1usize
                    << self.spec_level() as usize)
            },
        ensures
            r == (!self.spec_occupied() && self.spec_level() == buddy.spec_level()),
    {
        self.is_free() && self.level() == buddy.level()
    }
}

} // verus!
