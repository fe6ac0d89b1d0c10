//! Counting what an engine does to its medium.

use vstd::prelude::*;

use crate::StorageError;
use crate::medium::{Contents, Geometry, StorageMedium};

verus! {

/// A medium that counts the reads, writes and erases that reach it, and
/// hands each on to the medium it wraps. The counts stop at the largest
/// number they can hold.
pub struct Counters<P: StorageMedium> {
    pub medium: P,
    pub erase_count: usize,
    pub read_count: usize,
    pub write_count: usize,
}

/// One more, unless the count is at its limit.
pub open spec fn spec_bump(count: usize) -> usize {
    if count == usize::MAX {
        count
    } else {
        (count + 1) as usize
    }
}

/// One more, unless the count is at its limit.
#[verifier::when_used_as_spec(spec_bump)]
pub fn bump(count: usize) -> (next: usize)
    ensures
        next == spec_bump(count),
{
    if count == usize::MAX {
        count
    } else {
        count + 1
    }
}

impl<P: StorageMedium> Counters<P> {
    /// Wraps `medium`, with all counts at zero.
    pub fn new(medium: P) -> (counters: Self)
        requires
            medium.inv(),
        ensures
            counters.inv(),
            counters.medium == medium,
            counters.erase_count == 0,
            counters.read_count == 0,
            counters.write_count == 0,
    {
        Self { medium, erase_count: 0, read_count: 0, write_count: 0 }
    }
}

impl<P: StorageMedium> StorageMedium for Counters<P> {
    open spec fn view(&self) -> Contents {
        self.medium@
    }

    open spec fn trace(&self) -> Seq<Contents> {
        self.medium.trace()
    }

    open spec fn spec_geometry(&self) -> Geometry {
        self.medium.spec_geometry()
    }

    open spec fn inv(&self) -> bool {
        self.medium.inv()
    }

    open spec fn reliable(&self) -> bool {
        self.medium.reliable()
    }

    open spec fn erased(&self) -> nat {
        self.medium.erased()
    }

    proof fn lemma_inv(&self) {
        self.medium.lemma_inv();
    }

    fn geometry(&self) -> (g: Geometry) {
        self.medium.geometry()
    }

    fn read(&mut self, block: usize, offset: usize, buf: &mut [u8]) -> (res: Result<
        (),
        StorageError,
    >)
        ensures
            final(self).read_count == bump(old(self).read_count),
            final(self).write_count == old(self).write_count,
            final(self).erase_count == old(self).erase_count,
    {
        self.read_count = bump(self.read_count);
        self.medium.read(block, offset, buf)
    }

    fn write(&mut self, block: usize, offset: usize, data: &[u8]) -> (res: Result<
        (),
        StorageError,
    >)
        ensures
            final(self).write_count == bump(old(self).write_count),
            final(self).read_count == old(self).read_count,
            final(self).erase_count == old(self).erase_count,
    {
        self.write_count = bump(self.write_count);
        self.medium.write(block, offset, data)
    }

    fn erase(&mut self, block: usize) -> (res: Result<(), StorageError>)
        ensures
            final(self).erase_count == bump(old(self).erase_count),
            final(self).read_count == old(self).read_count,
            final(self).write_count == old(self).write_count,
    {
        self.erase_count = bump(self.erase_count);
        self.medium.erase(block)
    }
}

} // verus!
