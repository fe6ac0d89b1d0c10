//! The flash medium: its geometry, the model of what a write and an erase do
//! to its contents, and the trait that a backing store implements.

use vstd::prelude::*;

use crate::StorageError;

pub mod ram;

verus! {

/// The smallest unit that a medium can program.
#[derive(Clone, Copy, PartialEq, Eq, Structural, Debug)]
pub enum WriteGranularity {
    /// Any subset of the bits of a byte may be cleared by a write.
    Bit,
    /// Writes cover whole words of the given number of bytes.
    Word(usize),
}

impl WriteGranularity {
    /// The number of bytes in one write unit.
    pub open spec fn spec_width(self) -> usize {
        match self {
            WriteGranularity::Bit => 1,
            WriteGranularity::Word(len) => len,
        }
    }

    /// The number of bytes in one write unit.
    #[verifier::when_used_as_spec(spec_width)]
    pub fn width(self) -> (w: usize)
        ensures
            w == self.spec_width(),
    {
        match self {
            WriteGranularity::Bit => 1,
            WriteGranularity::Word(len) => len,
        }
    }
}

/// The smallest block that holds a metadata object on every medium: the
/// header of the block (4 bytes), the largest header of an object (12 bytes
/// of state and 4 of size) and the largest payload of a metadata object (a
/// hash of 4 bytes and two locations of 8). In a smaller block no file
/// could be entered.
pub const MIN_BLOCK_SIZE: usize = 40;

/// The largest block size and block count the on-medium format can address.
pub const MAX_DIMENSION: usize = 0x7FFF_FFFF;

/// The number of bytes that state patterns occupy on a word-granular medium.
pub const STATUS_WORD_BYTES: usize = 12;

/// The number of little-endian bytes needed so that `limit` itself is
/// representable and the all-ones pattern stays above it.
pub open spec fn spec_bytes_for(limit: int) -> int {
    if limit < 0x100 {
        1
    } else if limit < 0x1_0000 {
        2
    } else if limit < 0x100_0000 {
        3
    } else {
        4
    }
}

/// The number of little-endian bytes needed so that `limit` itself is
/// representable and the all-ones pattern stays above it.
pub fn bytes_for(limit: usize) -> (n: usize)
    ensures
        n == spec_bytes_for(limit as int),
        1 <= n <= 4,
{
    if limit < 0x100 {
        1
    } else if limit < 0x1_0000 {
        2
    } else if limit < 0x100_0000 {
        3
    } else {
        4
    }
}

/// The shape of a medium: how many blocks, how large, and how it is written.
#[derive(Clone, Copy, PartialEq, Eq, Structural, Debug)]
pub struct Geometry {
    pub block_size: usize,
    pub block_count: usize,
    pub granularity: WriteGranularity,
}

impl Geometry {
    /// A geometry the engine can lay objects out on: the blocks are whole
    /// write units of one, two or four bytes, which is what the patterns of
    /// the states and the staging buffer are made for, hold a metadata
    /// object, and can be addressed in the format's fields.
    pub open spec fn valid(self) -> bool {
        &&& MIN_BLOCK_SIZE <= self.block_size <= MAX_DIMENSION
        &&& 1 <= self.block_count <= MAX_DIMENSION
        &&& match self.granularity {
            WriteGranularity::Bit => true,
            WriteGranularity::Word(len) => len == 1 || (len == 2 && self.block_size % 2 == 0)
                || (len == 4 && self.block_size % 4 == 0),
        }
    }

    /// Checks that the engine can lay objects out on this geometry.
    pub fn is_valid(&self) -> (ok: bool)
        ensures
            ok == self.valid(),
    {
        let dims = MIN_BLOCK_SIZE <= self.block_size && self.block_size <= MAX_DIMENSION && 1
            <= self.block_count && self.block_count <= MAX_DIMENSION;
        let gran = match self.granularity {
            WriteGranularity::Bit => true,
            WriteGranularity::Word(len) => len == 1 || (len == 2 && self.block_size % 2 == 0)
                || (len == 4 && self.block_size % 4 == 0),
        };
        dims && gran
    }

    /// The width of one write unit.
    pub open spec fn word(self) -> int {
        self.granularity.spec_width() as int
    }

    /// `offset` rounded up to the next multiple of the write unit.
    #[verifier::opaque]
    pub open spec fn spec_align(self, offset: int) -> int {
        match self.granularity {
            WriteGranularity::Bit => offset,
            WriteGranularity::Word(len) => if len == 2 {
                offset + offset % 2
            } else if len == 4 {
                offset + (4 - offset % 4) % 4
            } else {
                offset
            },
        }
    }

    /// `offset` rounded up to the next multiple of the write unit.
    pub fn align(&self, offset: usize) -> (aligned: usize)
        requires
            self.valid(),
            offset <= MAX_DIMENSION,
        ensures
            aligned == self.spec_align(offset as int),
            offset <= aligned < offset + self.word(),
            self.aligned(aligned as int),
    {
        proof {
            reveal(Geometry::spec_align);
            reveal(Geometry::aligned);
        }
        match self.granularity {
            WriteGranularity::Bit => offset,
            WriteGranularity::Word(len) => if len == 2 {
                offset + offset % 2
            } else if len == 4 {
                offset + (4 - offset % 4) % 4
            } else {
                offset
            },
        }
    }

    /// `offset` rounded down to a multiple of the write unit.
    #[verifier::opaque]
    pub open spec fn spec_floor(self, offset: int) -> int {
        match self.granularity {
            WriteGranularity::Bit => offset,
            WriteGranularity::Word(len) => if len == 2 {
                offset - offset % 2
            } else if len == 4 {
                offset - offset % 4
            } else {
                offset
            },
        }
    }

    /// `offset` rounded down to a multiple of the write unit.
    pub fn floor(&self, offset: usize) -> (floored: usize)
        ensures
            floored == self.spec_floor(offset as int),
            floored <= offset,
            self.valid() ==> offset < floored + self.word() && self.aligned(floored as int),
    {
        proof {
            reveal(Geometry::spec_floor);
            reveal(Geometry::aligned);
        }
        match self.granularity {
            WriteGranularity::Bit => offset,
            WriteGranularity::Word(len) => if len == 2 {
                offset - offset % 2
            } else if len == 4 {
                offset - offset % 4
            } else {
                offset
            },
        }
    }

    /// Whether `offset` is a multiple of the write unit.
    #[verifier::opaque]
    pub open spec fn aligned(self, offset: int) -> bool {
        match self.granularity {
            WriteGranularity::Bit => true,
            WriteGranularity::Word(len) => if len == 2 {
                offset % 2 == 0
            } else if len == 4 {
                offset % 4 == 0
            } else {
                true
            },
        }
    }

    /// Whether `offset` is a multiple of the write unit.
    pub fn is_aligned(&self, offset: usize) -> (ok: bool)
        ensures
            ok == self.aligned(offset as int),
    {
        proof {
            reveal(Geometry::aligned);
        }
        match self.granularity {
            WriteGranularity::Bit => true,
            WriteGranularity::Word(len) => if len == 2 {
                offset % 2 == 0
            } else if len == 4 {
                offset % 4 == 0
            } else {
                true
            },
        }
    }

    /// The number of bytes that hold an object's state.
    pub open spec fn spec_object_status_bytes(self) -> int {
        match self.granularity {
            WriteGranularity::Bit => 1,
            WriteGranularity::Word(_) => STATUS_WORD_BYTES as int,
        }
    }

    /// The number of bytes that hold an object's state.
    pub fn object_status_bytes(&self) -> (n: usize)
        ensures
            n == self.spec_object_status_bytes(),
    {
        match self.granularity {
            WriteGranularity::Bit => 1,
            WriteGranularity::Word(_) => STATUS_WORD_BYTES,
        }
    }

    /// The number of bytes that hold an object's payload size.
    pub open spec fn spec_object_size_bytes(self) -> int {
        spec_bytes_for(self.block_size as int)
    }

    /// The number of bytes that hold an object's payload size.
    pub fn object_size_bytes(&self) -> (n: usize)
        ensures
            n == self.spec_object_size_bytes(),
            1 <= n <= 4,
    {
        bytes_for(self.block_size)
    }

    /// The number of bytes that hold a block index.
    pub open spec fn spec_block_count_bytes(self) -> int {
        spec_bytes_for(self.block_count as int)
    }

    /// The number of bytes that hold a block index.
    pub fn block_count_bytes(&self) -> (n: usize)
        ensures
            n == self.spec_block_count_bytes(),
            1 <= n <= 4,
    {
        bytes_for(self.block_count)
    }

    /// The number of bytes of a serialized object location.
    pub open spec fn spec_object_location_bytes(self) -> int {
        self.spec_block_count_bytes() + self.spec_object_size_bytes()
    }

    /// The number of bytes of a serialized object location.
    pub fn object_location_bytes(&self) -> (n: usize)
        ensures
            n == self.spec_object_location_bytes(),
            2 <= n <= 8,
    {
        self.block_count_bytes() + self.object_size_bytes()
    }

    /// The number of bytes of an object header: the state, then the payload
    /// size, each starting on a write unit.
    pub open spec fn spec_object_header_bytes(self) -> int {
        self.spec_object_status_bytes() + self.spec_align(self.spec_object_size_bytes())
    }

    /// The number of bytes of an object header: the state, then the payload
    /// size, each starting on a write unit.
    pub fn object_header_bytes(&self) -> (n: usize)
        requires
            self.valid(),
        ensures
            n == self.spec_object_header_bytes(),
            2 <= n <= 16,
            self.aligned(n as int),
    {
        proof {
            lemma_align(*self, 0);
        }
        self.object_status_bytes() + self.align(self.object_size_bytes())
    }
}

/// Rounding up moves by less than a write unit and lands on one.
pub proof fn lemma_align(g: Geometry, offset: int)
    requires
        g.valid(),
        0 <= offset,
    ensures
        offset <= g.spec_align(offset) < offset + g.word(),
        g.aligned(g.spec_align(offset)),
        g.aligned(offset) ==> g.spec_align(offset) == offset,
        1 <= g.word() <= 4,
        g.aligned(0),
        g.aligned(g.block_size as int),
        g.aligned(4),
        g.aligned(g.word()),
        g.aligned(g.spec_object_header_bytes()),
        g.aligned(g.spec_object_status_bytes()),
        2 <= g.spec_object_header_bytes() <= 16,
        g.spec_object_status_bytes() + g.spec_object_size_bytes()
            <= g.spec_object_header_bytes(),
        g.spec_align(g.spec_object_size_bytes()) == g.spec_object_header_bytes()
            - g.spec_object_status_bytes(),
        g.granularity is Bit ==> g.aligned(offset) && g.word() == 1,
{
    reveal(Geometry::spec_align);
    reveal(Geometry::aligned);
}

/// Rounding down moves by less than a write unit and lands on one.
pub proof fn lemma_floor(g: Geometry, offset: int)
    requires
        g.valid(),
        0 <= offset,
    ensures
        0 <= g.spec_floor(offset) <= offset < g.spec_floor(offset) + g.word(),
        g.aligned(g.spec_floor(offset)),
        g.aligned(offset) ==> g.spec_floor(offset) == offset,
{
    reveal(Geometry::spec_floor);
    reveal(Geometry::aligned);
}

/// The multiple of the write unit that is at most a unit below a number is
/// the number rounded down; the one that is at most a unit above it is the
/// number rounded up.
pub proof fn lemma_round_unique(g: Geometry, mark: int, offset: int)
    requires
        g.valid(),
        0 <= mark,
        0 <= offset,
        g.aligned(mark),
    ensures
        mark <= offset < mark + g.word() ==> g.spec_floor(offset) == mark,
        offset <= mark < offset + g.word() ==> g.spec_align(offset) == mark,
{
    reveal(Geometry::spec_floor);
    reveal(Geometry::spec_align);
    reveal(Geometry::aligned);
}

/// Rounding stays on the near side of every multiple of the write unit.
pub proof fn lemma_round_bound(g: Geometry, mark: int, offset: int)
    requires
        g.valid(),
        0 <= mark,
        0 <= offset,
        g.aligned(mark),
    ensures
        mark <= offset ==> mark <= g.spec_floor(offset),
        offset <= mark ==> g.spec_align(offset) <= mark,
{
    reveal(Geometry::spec_floor);
    reveal(Geometry::spec_align);
    reveal(Geometry::aligned);
}

/// Sums and differences of multiples of the write unit are multiples of it.
pub proof fn lemma_aligned_sum(g: Geometry, a: int, b: int)
    requires
        g.valid(),
        g.aligned(a),
        g.aligned(b),
    ensures
        g.aligned(a + b),
        g.aligned(a - b),
{
    reveal(Geometry::aligned);
}

/// A positive multiple of the write unit is at least one unit.
pub proof fn lemma_small_multiple(g: Geometry, x: int)
    requires
        g.valid(),
        g.aligned(x),
        0 < x,
    ensures
        g.word() <= x,
{
    reveal(Geometry::aligned);
}

/// Rounding up behind a multiple of the write unit rounds up what was
/// added.
pub proof fn lemma_align_shift(g: Geometry, base: int, offset: int)
    requires
        g.valid(),
        0 <= base,
        0 <= offset,
        g.aligned(base),
    ensures
        g.spec_align(base + offset) == base + g.spec_align(offset),
        g.spec_floor(base + offset) == base + g.spec_floor(offset),
{
    reveal(Geometry::spec_floor);
    reveal(Geometry::spec_align);
    reveal(Geometry::aligned);
}

/// The contents of a medium: one byte sequence per block.
pub type Contents = Seq<Seq<u8>>;

/// The contents have the shape that the geometry prescribes.
pub open spec fn shaped(m: Contents, g: Geometry) -> bool {
    &&& m.len() == g.block_count
    &&& forall|b: int| 0 <= b < m.len() ==> (#[trigger] m[b]).len() == g.block_size
}

/// The byte range lies inside one block of the medium.
pub open spec fn in_bounds(g: Geometry, block: int, offset: int, len: int) -> bool {
    &&& 0 <= block < g.block_count
    &&& 0 <= offset
    &&& 0 <= len
    &&& offset + len <= g.block_size
}

/// The medium accepts a write of `len` bytes at this place: it lies inside one
/// block and covers whole write units.
pub open spec fn write_allowed(g: Geometry, block: int, offset: int, len: int) -> bool {
    &&& in_bounds(g, block, offset, len)
    &&& g.aligned(offset)
    &&& g.aligned(len)
}

/// A block after `data` was programmed at `offset`: flash can only clear
/// bits, so each byte becomes the conjunction of what was there and what was
/// written.
pub open spec fn programmed(block: Seq<u8>, offset: int, data: Seq<u8>) -> Seq<u8> {
    Seq::new(
        block.len(),
        |i: int|
            if offset <= i < offset + data.len() {
                block[i] & data[i - offset]
            } else {
                block[i]
            },
    )
}

/// The contents after `data` was programmed into `block` at `offset`.
pub open spec fn written(m: Contents, block: int, offset: int, data: Seq<u8>) -> Contents {
    m.update(block, programmed(m[block], offset, data))
}

/// A block in which every bit is set.
pub open spec fn blank(len: int) -> Seq<u8> {
    Seq::new(len as nat, |i: int| 0xFFu8)
}

/// The contents after `block` was erased.
pub open spec fn wiped(m: Contents, block: int) -> Contents {
    m.update(block, blank(m[block].len() as int))
}

/// Every byte of the block from `from` on is still erased.
pub open spec fn blank_from(block: Seq<u8>, from: int) -> bool {
    forall|i: int| from <= i < block.len() ==> #[trigger] block[i] == 0xFFu8
}

/// The two contents agree everywhere but in `block` between `lo` and `hi`.
pub open spec fn same_outside(a: Contents, b: Contents, block: int, lo: int, hi: int) -> bool {
    &&& a.len() == b.len()
    &&& forall|k: int| 0 <= k < a.len() ==> (#[trigger] a[k]).len() == b[k].len()
    &&& forall|k: int, i: int|
        0 <= k < a.len() && 0 <= i < a[k].len() && !(k == block && lo <= i < hi) ==> #[trigger] a[k][i]
            == b[k][i]
}

/// The trace of `after` continues that of `before`, and every contents it
/// adds agrees with the contents of `before` everywhere but in `block`
/// between `lo` and `hi`.
pub open spec fn grew_within<M: StorageMedium>(
    before: &M,
    after: &M,
    block: int,
    lo: int,
    hi: int,
) -> bool {
    &&& before.trace().len() <= after.trace().len()
    &&& after.trace().take(before.trace().len() as int) == before.trace()
    &&& forall|i: int|
        before.trace().len() <= i < after.trace().len() ==> same_outside(
            before@,
            #[trigger] after.trace()[i],
            block,
            lo,
            hi,
        )
}

/// A medium's trace continues itself.
pub proof fn lemma_grew_none<M: StorageMedium>(before: &M, after: &M, block: int, lo: int, hi: int)
    requires
        after.trace() == before.trace(),
    ensures
        grew_within(before, after, block, lo, hi),
{
    assert(after.trace().take(before.trace().len() as int) =~= before.trace());
}

/// One more step that stays inside the range continues the trace.
pub proof fn lemma_grew_step<M: StorageMedium>(
    before: &M,
    mid: &M,
    after: &M,
    block: int,
    lo: int,
    hi: int,
)
    requires
        grew_within(before, mid, block, lo, hi),
        after.trace() == mid.trace().push(after@),
        same_outside(before@, after@, block, lo, hi),
    ensures
        grew_within(before, after, block, lo, hi),
{
    assert(after.trace().take(before.trace().len() as int) =~= mid.trace().take(
        before.trace().len() as int,
    ));
}

/// A step that adds nothing to the trace continues it.
pub proof fn lemma_grew_step_none<M: StorageMedium>(
    before: &M,
    mid: &M,
    after: &M,
    block: int,
    lo: int,
    hi: int,
)
    requires
        grew_within(before, mid, block, lo, hi),
        after.trace() == mid.trace(),
    ensures
        grew_within(before, after, block, lo, hi),
{
}

/// Contents that agree outside a range agree outside every wider range.
pub proof fn lemma_same_outside_wider(
    a: Contents,
    b: Contents,
    block: int,
    lo: int,
    hi: int,
    lo2: int,
    hi2: int,
)
    requires
        same_outside(a, b, block, lo, hi),
        lo2 <= lo,
        hi <= hi2,
    ensures
        same_outside(a, b, block, lo2, hi2),
{
}

/// Programming nothing changes nothing.
pub proof fn lemma_written_nothing(m: Contents, block: int, offset: int)
    requires
        0 <= block < m.len(),
    ensures
        written(m, block, offset, Seq::<u8>::empty()) == m,
{
    assert(programmed(m[block], offset, Seq::<u8>::empty()) =~= m[block]);
    assert(written(m, block, offset, Seq::<u8>::empty()) =~= m);
}

/// Two writes that follow each other in one block are one write of the
/// joined data.
pub proof fn lemma_written_twice(m: Contents, block: int, offset: int, a: Seq<u8>, b: Seq<u8>)
    requires
        0 <= block < m.len(),
    ensures
        written(written(m, block, offset, a), block, offset + a.len(), b) == written(
            m,
            block,
            offset,
            a + b,
        ),
{
    let once = programmed(m[block], offset, a);
    assert(programmed(once, offset + a.len(), b) =~= programmed(m[block], offset, a + b));
    assert(written(written(m, block, offset, a), block, offset + a.len(), b) =~= written(
        m,
        block,
        offset,
        a + b,
    ));
}

/// A write keeps the shape of the contents and changes nothing outside the
/// range it covers.
pub proof fn lemma_written_outside(m: Contents, block: int, offset: int, data: Seq<u8>)
    requires
        0 <= block < m.len(),
    ensures
        same_outside(m, written(m, block, offset, data), block, offset, offset + data.len()),
        written(m, block, offset, data).len() == m.len(),
        forall|g: Geometry| shaped(m, g) ==> shaped(#[trigger] written(m, block, offset, data), g),
{
}

/// A raw flash medium: equally sized erasable blocks that are read and
/// programmed in place.
///
/// The view is the current contents. The trace lists every contents the
/// medium has held, oldest first: a loss of power leaves the medium in one of
/// them. Each successful write or erase is one indivisible step of the trace;
/// a failed operation leaves the medium as it was.
pub trait StorageMedium: Sized {
    /// The current contents.
    spec fn view(&self) -> Contents;

    /// Every contents the medium has held, ending in the current one.
    spec fn trace(&self) -> Seq<Contents>;

    /// The shape of the medium, which never changes.
    spec fn spec_geometry(&self) -> Geometry;

    /// What the implementation needs to hold of itself.
    spec fn inv(&self) -> bool;

    /// Whether operations inside the medium's bounds always succeed. A
    /// driver for real hardware, which may fail at any time, says `false`.
    spec fn reliable(&self) -> bool;

    /// The number of erases that the medium has carried out. As long as it
    /// stays the same, no bit that was cleared has been set again.
    spec fn erased(&self) -> nat;

    /// The invariant fixes the shape of the contents and of the trace.
    proof fn lemma_inv(&self)
        requires
            self.inv(),
        ensures
            self.spec_geometry().valid(),
            shaped(self@, self.spec_geometry()),
            self.trace().len() > 0,
            self.trace().last() == self@,
    ;

    /// The shape of the medium.
    fn geometry(&self) -> (g: Geometry)
        requires
            self.inv(),
        ensures
            g == self.spec_geometry(),
    ;

    /// Reads `buf.len()` bytes of `block`, starting at `offset`.
    fn read(&mut self, block: usize, offset: usize, buf: &mut [u8]) -> (res: Result<
        (),
        StorageError,
    >)
        requires
            old(self).inv(),
        ensures
            final(self).inv(),
            final(self)@ == old(self)@,
            final(self).trace() == old(self).trace(),
            final(self).spec_geometry() == old(self).spec_geometry(),
            final(self).reliable() == old(self).reliable(),
            final(self).erased() == old(self).erased(),
            final(buf)@.len() == old(buf)@.len(),
            res is Ok ==> in_bounds(
                old(self).spec_geometry(),
                block as int,
                offset as int,
                old(buf)@.len() as int,
            ) && final(buf)@ == old(self)@[block as int].subrange(
                offset as int,
                offset + old(buf)@.len(),
            ),
            res is Err ==> res == Err::<(), StorageError>(StorageError::Io),
            old(self).reliable() && in_bounds(
                old(self).spec_geometry(),
                block as int,
                offset as int,
                old(buf)@.len() as int,
            ) ==> res is Ok,
    ;

    /// Programs `data` into `block`, starting at `offset`.
    fn write(&mut self, block: usize, offset: usize, data: &[u8]) -> (res: Result<
        (),
        StorageError,
    >)
        requires
            old(self).inv(),
        ensures
            final(self).inv(),
            final(self).spec_geometry() == old(self).spec_geometry(),
            final(self).reliable() == old(self).reliable(),
            final(self).erased() == old(self).erased(),
            res is Ok ==> write_allowed(
                old(self).spec_geometry(),
                block as int,
                offset as int,
                data@.len() as int,
            ) && final(self)@ == written(old(self)@, block as int, offset as int, data@)
                && final(self).trace() == old(self).trace().push(final(self)@),
            res is Err ==> res == Err::<(), StorageError>(StorageError::Io) && final(self)@ == old(
                self,
            )@ && final(self).trace() == old(self).trace(),
            old(self).reliable() && write_allowed(
                old(self).spec_geometry(),
                block as int,
                offset as int,
                data@.len() as int,
            ) ==> res is Ok,
    ;

    /// Erases `block`: every bit of it is set again.
    fn erase(&mut self, block: usize) -> (res: Result<(), StorageError>)
        requires
            old(self).inv(),
        ensures
            final(self).inv(),
            final(self).spec_geometry() == old(self).spec_geometry(),
            final(self).reliable() == old(self).reliable(),
            final(self).erased() == old(self).erased() + (if res is Ok {
                1nat
            } else {
                0nat
            }),
            res is Ok ==> block < old(self).spec_geometry().block_count && final(self)@ == wiped(
                old(self)@,
                block as int,
            ) && final(self).trace() == old(self).trace().push(final(self)@),
            res is Err ==> res == Err::<(), StorageError>(StorageError::Io) && final(self)@ == old(
                self,
            )@ && final(self).trace() == old(self).trace(),
            old(self).reliable() && block < old(self).spec_geometry().block_count ==> res is Ok,
    ;
}

} // verus!
