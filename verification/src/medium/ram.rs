//! A medium kept in memory, which behaves like NOR flash: programming clears
//! bits and only an erase sets them again.

use vstd::prelude::*;

use crate::StorageError;
use crate::medium::{
    blank, programmed, wiped, written, Contents, Geometry, StorageMedium, WriteGranularity,
};

verus! {

/// A medium of `BLOCK_COUNT` blocks of `BLOCK_SIZE` bytes, held in memory.
pub struct RamStorage<const BLOCK_SIZE: usize, const BLOCK_COUNT: usize> {
    data: Vec<Vec<u8>>,
    granularity: WriteGranularity,
    writes_left: Option<usize>,
    history: Ghost<Seq<Contents>>,
    erases: Ghost<nat>,
}

/// The contents that a vector of blocks stands for.
pub open spec fn contents_of(data: Seq<Vec<u8>>) -> Contents {
    Seq::new(data.len(), |b: int| data[b]@)
}

impl<const BLOCK_SIZE: usize, const BLOCK_COUNT: usize> RamStorage<BLOCK_SIZE, BLOCK_COUNT> {
    /// The geometry that the type's parameters and a granularity give.
    pub open spec fn geometry_with(granularity: WriteGranularity) -> Geometry {
        Geometry { block_size: BLOCK_SIZE, block_count: BLOCK_COUNT, granularity }
    }

    /// The bytes held now.
    pub closed spec fn contents(&self) -> Contents {
        contents_of(self.data@)
    }

    /// The number of further writes and erases the medium accepts before it
    /// starts to fail, or `None` where it never fails.
    pub closed spec fn spec_writes_left(&self) -> Option<usize> {
        self.writes_left
    }

    /// An erased, bit-granular medium that never fails.
    pub fn new() -> (medium: Self)
        requires
            Self::geometry_with(WriteGranularity::Bit).valid(),
        ensures
            medium.inv(),
            medium.reliable(),
            medium.spec_geometry() == Self::geometry_with(WriteGranularity::Bit),
            forall|b: int| 0 <= b < BLOCK_COUNT ==> #[trigger] medium@[b] == blank(BLOCK_SIZE as int),
            medium.trace() == seq![medium@],
            medium.erased() == 0,
    {
        Self::with_granularity(WriteGranularity::Bit)
    }

    /// An erased medium of the given granularity that never fails.
    pub fn with_granularity(granularity: WriteGranularity) -> (medium: Self)
        requires
            Self::geometry_with(granularity).valid(),
        ensures
            medium.inv(),
            medium.reliable(),
            medium.spec_geometry() == Self::geometry_with(granularity),
            forall|b: int| 0 <= b < BLOCK_COUNT ==> #[trigger] medium@[b] == blank(BLOCK_SIZE as int),
            medium.trace() == seq![medium@],
            medium.erased() == 0,
    {
        let mut data: Vec<Vec<u8>> = Vec::new();
        let mut b: usize = 0;
        while b < BLOCK_COUNT
            invariant
                b <= BLOCK_COUNT,
                data@.len() == b,
                forall|k: int| 0 <= k < b ==> (#[trigger] data@[k])@ == blank(BLOCK_SIZE as int),
            decreases BLOCK_COUNT - b,
        {
            let mut block: Vec<u8> = Vec::new();
            let mut i: usize = 0;
            while i < BLOCK_SIZE
                invariant
                    i <= BLOCK_SIZE,
                    block@.len() == i,
                    forall|j: int| 0 <= j < i ==> #[trigger] block@[j] == 0xFFu8,
                decreases BLOCK_SIZE - i,
            {
                block.push(0xFFu8);
                i += 1;
            }
            assert(block@ =~= blank(BLOCK_SIZE as int));
            data.push(block);
            b += 1;
        }
        let ghost contents = contents_of(data@);
        let medium = RamStorage {
            data,
            granularity,
            writes_left: None,
            history: Ghost(Seq::empty().push(contents)),
            erases: Ghost(0),
        };
        assert(medium.trace() =~= seq![medium@]);
        medium
    }

    /// Makes the medium fail every write and erase after the next `count`
    /// of them, as a loss of power would.
    pub fn fail_after(&mut self, count: usize)
        requires
            old(self).inv(),
        ensures
            final(self).inv(),
            final(self)@ == old(self)@,
            final(self).trace() == old(self).trace(),
            final(self).erased() == old(self).erased(),
            final(self).spec_geometry() == old(self).spec_geometry(),
            final(self).spec_writes_left() == Some(count),
            !final(self).reliable(),
    {
        self.writes_left = Some(count);
    }

    /// Makes the medium accept every write and erase again.
    pub fn restore_power(&mut self)
        requires
            old(self).inv(),
        ensures
            final(self).inv(),
            final(self)@ == old(self)@,
            final(self).trace() == old(self).trace(),
            final(self).erased() == old(self).erased(),
            final(self).spec_geometry() == old(self).spec_geometry(),
            final(self).spec_writes_left() == None::<usize>,
            final(self).reliable(),
    {
        self.writes_left = None;
    }

    /// The budget once one write was taken out of it: a medium that never
    /// fails stays so, and a budget that is used up stays used up.
    pub open spec fn spent(budget: Option<usize>) -> Option<usize> {
        match budget {
            Some(left) => if left > 0 {
                Some((left - 1) as usize)
            } else {
                Some(0)
            },
            None => None,
        }
    }

    /// Takes one write out of the budget; `false` where none is left.
    fn spend(&mut self) -> (ok: bool)
        ensures
            final(self).data == old(self).data,
            final(self).granularity == old(self).granularity,
            final(self).history == old(self).history,
            final(self).erases == old(self).erases,
            ok == (old(self).writes_left != Some(0usize)),
            final(self).writes_left == Self::spent(old(self).writes_left),
    {
        match self.writes_left {
            None => true,
            Some(0) => false,
            Some(n) => {
                self.writes_left = Some(n - 1);
                true
            },
        }
    }
}

impl<const BLOCK_SIZE: usize, const BLOCK_COUNT: usize> StorageMedium for RamStorage<
    BLOCK_SIZE,
    BLOCK_COUNT,
> {
    closed spec fn view(&self) -> Contents {
        self.contents()
    }

    closed spec fn trace(&self) -> Seq<Contents> {
        self.history@
    }

    closed spec fn spec_geometry(&self) -> Geometry {
        Self::geometry_with(self.granularity)
    }

    closed spec fn inv(&self) -> bool {
        &&& Self::geometry_with(self.granularity).valid()
        &&& self.data@.len() == BLOCK_COUNT
        &&& forall|b: int| 0 <= b < BLOCK_COUNT ==> (#[trigger] self.data@[b])@.len() == BLOCK_SIZE
        &&& self.history@.len() > 0
        &&& self.history@.last() == contents_of(self.data@)
    }

    closed spec fn reliable(&self) -> bool {
        self.writes_left is None
    }

    closed spec fn erased(&self) -> nat {
        self.erases@
    }

    proof fn lemma_inv(&self) {
    }

    fn geometry(&self) -> (g: Geometry) {
        Geometry { block_size: BLOCK_SIZE, block_count: BLOCK_COUNT, granularity: self.granularity }
    }

    fn read(&mut self, block: usize, offset: usize, buf: &mut [u8]) -> (res: Result<
        (),
        StorageError,
    >) {
        let len = buf.len();
        if block >= BLOCK_COUNT || offset > BLOCK_SIZE || len > BLOCK_SIZE - offset {
            return Err(StorageError::Io);
        }
        let mut i: usize = 0;
        while i < len
            invariant
                i <= len,
                len == buf@.len(),
                block < BLOCK_COUNT,
                offset + len <= BLOCK_SIZE,
                self.data@.len() == BLOCK_COUNT,
                self.data@[block as int]@.len() == BLOCK_SIZE,
                forall|j: int| 0 <= j < i ==> #[trigger] buf@[j] == self.data@[block as int]@[offset + j],
            decreases len - i,
        {
            buf[i] = self.data[block][offset + i];
            i += 1;
        }
        assert(buf@ =~= self@[block as int].subrange(offset as int, offset + len));
        Ok(())
    }

    fn write(&mut self, block: usize, offset: usize, data: &[u8]) -> (res: Result<
        (),
        StorageError,
    >) {
        let len = data.len();
        let g = self.geometry();
        if block >= BLOCK_COUNT || offset > BLOCK_SIZE || len > BLOCK_SIZE - offset
            || !g.is_aligned(offset) || !g.is_aligned(len) {
            return Err(StorageError::Io);
        }
        if !self.spend() {
            return Err(StorageError::Io);
        }
        let ghost before = self.data@[block as int]@;
        let mut i: usize = 0;
        while i < len
            invariant
                i <= len,
                len == data@.len(),
                block < BLOCK_COUNT,
                offset + len <= BLOCK_SIZE,
                self.data@.len() == BLOCK_COUNT,
                before.len() == BLOCK_SIZE,
                forall|b: int| 0 <= b < BLOCK_COUNT ==> (#[trigger] self.data@[b])@.len() == BLOCK_SIZE,
                forall|b: int|
                    0 <= b < BLOCK_COUNT && b != block ==> (#[trigger] self.data@[b])@ == old(
                        self,
                    ).data@[b]@,
                self.data@[block as int]@ =~= programmed(before, offset as int, data@.take(i as int)),
                self.granularity == old(self).granularity,
                self.history == old(self).history,
                self.erases == old(self).erases,
                self.writes_left is Some == old(self).writes_left is Some,
            decreases len - i,
        {
            let current = self.data[block][offset + i];
            self.data[block][offset + i] = current & data[i];
            i += 1;
        }
        assert(data@.take(len as int) =~= data@);
        assert(self@ =~= written(old(self)@, block as int, offset as int, data@));
        self.history = Ghost(self.history@.push(self@));
        Ok(())
    }

    fn erase(&mut self, block: usize) -> (res: Result<(), StorageError>) {
        if block >= BLOCK_COUNT {
            return Err(StorageError::Io);
        }
        if !self.spend() {
            return Err(StorageError::Io);
        }
        let mut i: usize = 0;
        while i < BLOCK_SIZE
            invariant
                i <= BLOCK_SIZE,
                block < BLOCK_COUNT,
                self.data@.len() == BLOCK_COUNT,
                forall|b: int| 0 <= b < BLOCK_COUNT ==> (#[trigger] self.data@[b])@.len() == BLOCK_SIZE,
                forall|b: int|
                    0 <= b < BLOCK_COUNT && b != block ==> (#[trigger] self.data@[b])@ == old(
                        self,
                    ).data@[b]@,
                forall|j: int| 0 <= j < i ==> #[trigger] self.data@[block as int]@[j] == 0xFFu8,
                self.granularity == old(self).granularity,
                self.history == old(self).history,
                self.erases == old(self).erases,
                self.writes_left is Some == old(self).writes_left is Some,
            decreases BLOCK_SIZE - i,
        {
            self.data[block][i] = 0xFFu8;
            i += 1;
        }
        assert(self.data@[block as int]@ =~= blank(BLOCK_SIZE as int));
        assert(self@ =~= wiped(old(self)@, block as int));
        self.history = Ghost(self.history@.push(self@));
        self.erases = Ghost(self.erases@ + 1);
        Ok(())
    }
}

} // verus!
