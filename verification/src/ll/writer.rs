//! Writing one object: allocate, append payload, then commit the size and
//! the state in two separate writes.

use vstd::prelude::*;
use vstd::slice::slice_subrange;

use crate::StorageError;
use crate::ll::objects::{
    header_at, header_fits, pad, padded, size_encoding, untouched, wrote, ObjectHeader,
    ObjectLocation, ObjectOps, ObjectState,
};
use crate::medium::{
    grew_within, lemma_align, lemma_aligned_sum, lemma_floor, lemma_grew_none, lemma_grew_step,
    lemma_grew_step_none, lemma_round_bound, lemma_round_unique, lemma_same_outside_wider,
    lemma_written_nothing, lemma_written_outside, lemma_written_twice, written, Contents, Geometry,
    StorageMedium, WriteGranularity,
};

verus! {

/// `heapless::Vec`: a vector that holds up to `N` items in place. Of what
/// one holds nothing is known but what `staged` names.
#[verifier::external_type_specification]
#[verifier::external_body]
#[verifier::reject_recursive_types(T)]
pub struct ExHeaplessVec<T, const N: usize>(heapless::Vec<T, N>);

/// The bytes that a staging buffer holds, in the order they were added.
pub uninterp spec fn staged(buffer: heapless::Vec<u8, 4>) -> Seq<u8>;

/// `heapless::Vec::new`: the new vector holds no bytes.
#[verifier::external_body]
fn staging_new() -> (buffer: heapless::Vec<u8, 4>)
    ensures
        staged(buffer) == Seq::<u8>::empty(),
{
    heapless::Vec::new()
}

/// `heapless::Vec::extend_from_slice`: where the vector's bytes and `bytes`
/// together exceed its capacity of four, it fails and changes nothing; else
/// it appends `bytes`.
#[verifier::external_body]
fn staging_extend(buffer: &mut heapless::Vec<u8, 4>, bytes: &[u8]) -> (res: Result<(), ()>)
    ensures
        staged(*old(buffer)).len() + bytes@.len() <= 4 ==> res is Ok && staged(*final(buffer))
            == staged(*old(buffer)) + bytes@,
        staged(*old(buffer)).len() + bytes@.len() > 4 ==> res is Err && staged(*final(buffer))
            == staged(*old(buffer)),
{
    buffer.extend_from_slice(bytes)
}

/// `heapless::Vec::as_slice`: the bytes that the vector holds.
#[verifier::external_body]
fn staging_bytes(buffer: &heapless::Vec<u8, 4>) -> (bytes: &[u8])
    ensures
        bytes@ == staged(*buffer),
{
    buffer.as_slice()
}

/// `heapless::Vec::is_empty`: whether the vector holds no bytes.
#[verifier::external_body]
fn staging_is_empty(buffer: &heapless::Vec<u8, 4>) -> (empty: bool)
    ensures
        empty == (staged(*buffer).len() == 0),
{
    buffer.is_empty()
}

/// `heapless::Vec::clear`: the vector holds no bytes afterwards.
#[verifier::external_body]
fn staging_clear(buffer: &mut heapless::Vec<u8, 4>)
    ensures
        staged(*final(buffer)) == Seq::<u8>::empty(),
{
    buffer.clear()
}

/// Writes one object. Payload bytes that do not fill a write unit wait in a
/// staging buffer until the unit is full or the object is closed.
pub struct ObjectWriter {
    location: ObjectLocation,
    object: ObjectHeader,
    cursor: usize,
    buffer: heapless::Vec<u8, 4>,
    accepted: Ghost<Seq<u8>>,
}

/// The contents after the payload size of the object at `location` was
/// committed.
pub open spec fn size_committed(m: Contents, g: Geometry, location: ObjectLocation, size: int) -> Contents {
    written(
        m,
        location.block as int,
        location.offset + g.spec_object_status_bytes(),
        size_encoding(g, size),
    )
}

/// The contents after staged payload bytes, if there are any, were written
/// out at `offset`, filled up to a whole write unit.
pub open spec fn rest_flushed(
    m: Contents,
    g: Geometry,
    location: ObjectLocation,
    offset: int,
    pending: Seq<u8>,
) -> Contents {
    if pending.len() > 0 {
        written(m, location.block as int, offset, padded(g, pending))
    } else {
        m
    }
}

/// The contents after the state of the object at `location` was set.
pub open spec fn state_set(m: Contents, g: Geometry, location: ObjectLocation, state: ObjectState) -> Contents {
    written(m, location.block as int, location.offset as int, state.encoding(g.granularity))
}

/// The contents that closing an object passes through, in order: after the
/// size was committed (where it is), after the staged bytes were written
/// out (where there are any), and after the state was set.
pub open spec fn closing_steps(
    m: Contents,
    g: Geometry,
    location: ObjectLocation,
    commit_size: bool,
    size: int,
    offset: int,
    pending: Seq<u8>,
    target: ObjectState,
) -> Seq<Contents> {
    let sized = if commit_size {
        size_committed(m, g, location, size)
    } else {
        m
    };
    let first = if commit_size {
        seq![sized]
    } else {
        Seq::<Contents>::empty()
    };
    let flushed = rest_flushed(sized, g, location, offset, pending);
    let second = if pending.len() > 0 {
        first.push(flushed)
    } else {
        first
    };
    second.push(state_set(flushed, g, location, target))
}

/// An operation went through an initial part of `steps`, each as one step
/// of the trace, and stopped there.
pub open spec fn went_through<M: StorageMedium>(
    before: &M,
    after: &M,
    steps: Seq<Contents>,
    all: bool,
) -> bool {
    let done = after.trace().len() - before.trace().len();
    &&& after.inv()
    &&& after.spec_geometry() == before.spec_geometry()
    &&& after.reliable() == before.reliable()
    &&& after.erased() == before.erased()
    &&& 0 <= done <= steps.len()
    &&& after.trace() == before.trace() + steps.take(done)
    &&& after@ == (if done == 0 {
        before@
    } else {
        steps[done - 1]
    })
    &&& all <==> done == steps.len()
}

/// What is flushed and what is staged, rounded up, is all that was taken,
/// rounded up.
pub proof fn lemma_align_shift_of(g: Geometry, flushed: int, pending: int)
    requires
        g.valid(),
        0 <= flushed,
        0 <= pending,
        g.aligned(flushed),
    ensures
        flushed + g.spec_align(pending) == g.spec_align(flushed + pending),
{
    crate::medium::lemma_align_shift(g, flushed, pending);
}

impl ObjectWriter {
    /// Where the object starts.
    pub closed spec fn location(&self) -> ObjectLocation {
        self.location
    }

    /// Where the object starts.
    pub fn place(&self) -> (location: ObjectLocation)
        ensures
            location == self.location(),
    {
        self.location
    }

    /// The state that the writer has brought the object to.
    pub closed spec fn state(&self) -> ObjectState {
        self.object.state
    }

    /// The number of payload bytes taken so far.
    pub closed spec fn cursor(&self) -> int {
        self.cursor as int
    }

    /// The payload bytes that wait for their write unit to fill.
    pub closed spec fn pending(&self) -> Seq<u8> {
        staged(self.buffer)
    }

    /// All payload bytes taken so far.
    pub closed spec fn accepted(&self) -> Seq<u8> {
        self.accepted@
    }

    /// The number of payload bytes that were programmed into the medium.
    pub open spec fn flushed(&self) -> int {
        self.cursor() - self.pending().len()
    }

    /// The offset of the first payload byte.
    pub open spec fn payload_start(&self, g: Geometry) -> int {
        self.location().offset + g.spec_object_header_bytes()
    }

    /// The writer stays inside its block, and what waits in the staging
    /// buffer is the unwritten tail of the payload, shorter than a write
    /// unit.
    pub open spec fn wf(&self, g: Geometry) -> bool {
        &&& self.staging(g)
        &&& self.pending().len() < g.word()
    }

    /// As `wf`, but the staging buffer may hold a whole write unit.
    pub open spec fn staging(&self, g: Geometry) -> bool {
        &&& g.valid()
        &&& self.location().block < g.block_count
        &&& g.aligned(self.location().offset as int)
        &&& header_fits(g, self.location().offset as int)
        &&& self.payload_start(g) + self.cursor() <= g.block_size
        &&& self.accepted().len() == self.cursor()
        &&& self.pending().len() <= self.cursor()
        &&& self.pending().len() <= g.word()
        &&& g.aligned(self.flushed())
        &&& self.pending() == self.accepted().subrange(self.flushed(), self.cursor())
        &&& (g.granularity is Bit ==> self.pending().len() == 0)
    }

    /// What opening a writer on `location` gives: the header there, unless
    /// an earlier writer has left the object allocated, or the location is
    /// not on a write unit.
    pub open spec fn spec_new(m: Contents, g: Geometry, location: ObjectLocation) -> Result<
        ObjectHeader,
        StorageError,
    > {
        match header_at(m, g, location) {
            Err(e) => Err(e),
            Ok(header) => if header.state == ObjectState::Allocated || !g.aligned(
                location.offset as int,
            ) {
                Err(StorageError::InvalidState)
            } else {
                Ok(header)
            },
        }
    }

    /// Opens a writer on the object at `location`. An object that reads as
    /// allocated was abandoned by an earlier writer and cannot be resumed.
    pub fn new<M: StorageMedium>(location: ObjectLocation, medium: &mut M) -> (res: Result<
        ObjectWriter,
        StorageError,
    >)
        requires
            old(medium).inv(),
        ensures
            res matches Err(e) ==> e.is_fault(),
            untouched(old(medium), final(medium)),
            match res {
                Ok(writer) => Self::spec_new(old(medium)@, old(medium).spec_geometry(), location)
                    matches Ok(header) && header.state == writer.state() && writer.location()
                    == location && writer.cursor() == 0 && writer.accepted() == Seq::<u8>::empty()
                    && writer.wf(old(medium).spec_geometry()),
                Err(e) => Self::spec_new(old(medium)@, old(medium).spec_geometry(), location)
                    == Err::<ObjectHeader, StorageError>(e) || (!old(medium).reliable() && e
                    == StorageError::Io),
            },
    {
        proof {
            medium.lemma_inv();
            crate::medium::lemma_align(medium.spec_geometry(), 0);
        }
        let g = medium.geometry();
        let object = match ObjectHeader::read(location, medium) {
            Ok(object) => object,
            Err(e) => {
                return Err(e);
            },
        };
        if object.state.is_allocated() || !g.is_aligned(location.offset) {
            return Err(StorageError::InvalidState);
        }
        let writer = ObjectWriter {
            location,
            object,
            cursor: 0,
            buffer: staging_new(),
            accepted: Ghost(Seq::empty()),
        };
        assert(writer.pending() =~= writer.accepted().subrange(0, 0));
        Ok(writer)
    }

    /// Moves the front of `data` into the staging buffer, as far as it
    /// helps to fill a write unit, and returns the rest.
    fn fill_buffer<'d>(&mut self, g: &Geometry, data: &'d [u8]) -> (rest: &'d [u8])
        requires
            old(self).staging(*g),
            old(self).payload_start(*g) + old(self).cursor() + data@.len() <= g.block_size,
        ensures
            final(self).staging(*g),
            final(self).location() == old(self).location(),
            final(self).state() == old(self).state(),
            final(self).flushed() == old(self).flushed(),
            final(self).accepted() + rest@ == old(self).accepted() + data@,
            final(self).cursor() + rest@.len() == old(self).cursor() + data@.len(),
            g.granularity is Bit ==> rest@ == data@,
            !(g.granularity is Bit) && rest@.len() > 0 ==> final(self).pending().len() == g.word(),
    {
        proof {
            lemma_align(*g, 0);
        }
        match g.granularity {
            WriteGranularity::Bit => {
                assert(self.accepted() + data@ =~= old(self).accepted() + data@);
                data
            },
            WriteGranularity::Word(len) => {
                let held = staging_bytes(&self.buffer).len();
                let room = len - held;
                let copied = if data.len() < room {
                    data.len()
                } else {
                    room
                };
                let front = slice_subrange(data, 0, copied);
                let rest = slice_subrange(data, copied, data.len());
                let _ = staging_extend(&mut self.buffer, front);
                self.cursor = self.cursor + copied;
                self.accepted = Ghost(self.accepted@ + front@);
                assert(self.pending() =~= self.accepted().subrange(
                    self.flushed(),
                    self.cursor(),
                ));
                assert(self.accepted() + rest@ =~= old(self).accepted() + data@);
                rest
            },
        }
    }

    /// Whether the staging buffer holds a whole write unit.
    fn can_flush(&self, g: &Geometry) -> (full: bool)
        requires
            self.staging(*g),
        ensures
            full == (!(g.granularity is Bit) && self.pending().len() == g.word()),
    {
        match g.granularity {
            WriteGranularity::Bit => false,
            WriteGranularity::Word(len) => staging_bytes(&self.buffer).len() == len,
        }
    }

    /// Writes the staged bytes out, filled up to a whole write unit, and
    /// empties the staging buffer.
    fn flush<M: StorageMedium>(&mut self, medium: &mut M) -> (res: Result<(), StorageError>)
        requires
            old(medium).inv(),
            old(self).staging(old(medium).spec_geometry()),
        ensures
            final(self).location() == old(self).location(),
            final(self).state() == old(self).state(),
            final(self).cursor() == old(self).cursor(),
            final(self).accepted() == old(self).accepted(),
            res is Err ==> res == Err::<(), StorageError>(StorageError::Io) && final(self).pending()
                == old(self).pending() && !old(medium).reliable(),
            res is Ok ==> final(self).pending() == Seq::<u8>::empty(),
            old(self).pending().len() == 0 ==> res is Ok && untouched(old(medium), final(medium)),
            old(self).pending().len() > 0 ==> wrote(
                old(medium),
                final(medium),
                res is Ok,
                old(self).location().block as int,
                old(self).payload_start(old(medium).spec_geometry()) + old(self).flushed(),
                padded(old(medium).spec_geometry(), old(self).pending()),
            ),
    {
        proof {
            medium.lemma_inv();
            crate::medium::lemma_align(medium.spec_geometry(), 0);
        }
        let g = medium.geometry();
        if staging_is_empty(&self.buffer) {
            assert(self.pending() =~= Seq::<u8>::empty());
            return Ok(());
        }
        let offset = self.data_write_offset(&g);
        let unit = pad(&g, staging_bytes(&self.buffer));
        proof {
            let start = self.payload_start(g);
            lemma_aligned_sum(g, self.location().offset as int, g.spec_object_header_bytes());
            lemma_aligned_sum(g, start, self.flushed());
            lemma_align(g, self.pending().len() as int);
            lemma_aligned_sum(g, g.block_size as int, start);
            lemma_round_bound(g, g.block_size - start, self.cursor());
            lemma_align_shift_of(g, self.flushed(), self.pending().len() as int);
        }
        match medium.write(self.location.block, offset, unit.as_slice()) {
            Ok(()) => {
                staging_clear(&mut self.buffer);
                Ok(())
            },
            Err(e) => Err(e),
        }
    }

    /// Marks the object as started.
    pub fn allocate<M: StorageMedium>(&mut self, medium: &mut M) -> (res: Result<(), StorageError>)
        requires
            old(medium).inv(),
            old(self).wf(old(medium).spec_geometry()),
        ensures
            res matches Err(e) ==> e.is_fault(),
            final(self).wf(old(medium).spec_geometry()),
            final(self).location() == old(self).location(),
            final(self).cursor() == old(self).cursor(),
            final(self).accepted() == old(self).accepted(),
            final(self).pending() == old(self).pending(),
            old(self).state() != ObjectState::Free ==> res == Err::<(), StorageError>(
                StorageError::InvalidState,
            ) && untouched(old(medium), final(medium)) && final(self).state() == old(self).state(),
            old(self).state() == ObjectState::Free ==> wrote(
                old(medium),
                final(medium),
                res is Ok,
                old(self).location().block as int,
                old(self).location().offset as int,
                ObjectState::Allocated.encoding(old(medium).spec_geometry().granularity),
            ) && (res is Ok ==> final(self).state() == ObjectState::Allocated) && (res is Err
                ==> res == Err::<(), StorageError>(StorageError::Io) && final(self).state()
                == ObjectState::Free),
    {
        if !self.object.state.is_free() {
            return Err(StorageError::InvalidState);
        }
        self.set_state(medium, ObjectState::Allocated)
    }

    /// The offset in the block at which the next payload bytes will be
    /// programmed.
    fn data_write_offset(&self, g: &Geometry) -> (offset: usize)
        requires
            self.staging(*g),
        ensures
            offset == self.payload_start(*g) + self.flushed(),
    {
        proof {
            lemma_align(*g, 0);
        }
        self.location.offset + g.object_header_bytes() + (self.cursor - staging_bytes(
            &self.buffer,
        ).len())
    }

    /// The number of payload bytes the object can still take.
    pub fn space(&self, g: &Geometry) -> (n: usize)
        requires
            self.wf(*g),
        ensures
            n == g.block_size - self.payload_start(*g) - self.cursor(),
    {
        proof {
            lemma_align(*g, 0);
        }
        g.block_size - (self.location.offset + g.object_header_bytes() + self.cursor)
    }

    /// Programs the state and, where that succeeds, remembers it.
    fn set_state<M: StorageMedium>(&mut self, medium: &mut M, state: ObjectState) -> (res: Result<
        (),
        StorageError,
    >)
        requires
            old(medium).inv(),
            state != ObjectState::Free,
        ensures
            final(self).location() == old(self).location(),
            final(self).cursor() == old(self).cursor(),
            final(self).accepted() == old(self).accepted(),
            final(self).pending() == old(self).pending(),
            wrote(
                old(medium),
                final(medium),
                res is Ok,
                old(self).location().block as int,
                old(self).location().offset as int,
                state.encoding(old(medium).spec_geometry().granularity),
            ),
            res is Ok ==> final(self).state() == state,
            res is Err ==> res == Err::<(), StorageError>(StorageError::Io) && final(self).state()
                == old(self).state(),
    {
        match ObjectOps::update_state(medium, self.location, state) {
            Ok(()) => {
                self.object.state = state;
                Ok(())
            },
            Err(e) => Err(e),
        }
    }

    /// Commits the number of payload bytes taken so far to the header.
    fn write_size<M: StorageMedium>(&mut self, medium: &mut M) -> (res: Result<(), StorageError>)
        requires
            old(medium).inv(),
            old(self).staging(old(medium).spec_geometry()),
        ensures
            *final(self) == *old(self),
            res is Err ==> res == Err::<(), StorageError>(StorageError::Io),
            wrote(
                old(medium),
                final(medium),
                res is Ok,
                old(self).location().block as int,
                old(self).location().offset + old(medium).spec_geometry().spec_object_status_bytes(),
                size_encoding(old(medium).spec_geometry(), old(self).cursor()),
            ),
    {
        ObjectOps::set_payload_size(medium, self.location, self.cursor)
    }

    /// Fills the staged write unit up from the front of `data` and writes
    /// it out once it is whole. Returns the rest of `data`.
    fn top_up<'d, M: StorageMedium>(&mut self, medium: &mut M, data: &'d [u8]) -> (res: Result<
        &'d [u8],
        StorageError,
    >)
        requires
            old(medium).inv(),
            old(self).wf(old(medium).spec_geometry()),
            old(self).payload_start(old(medium).spec_geometry()) + old(self).cursor() + data@.len()
                <= old(medium).spec_geometry().block_size,
        ensures
            final(medium).inv(),
            final(medium).spec_geometry() == old(medium).spec_geometry(),
            final(medium).reliable() == old(medium).reliable(),
            final(medium).erased() == old(medium).erased(),
            final(self).location() == old(self).location(),
            final(self).state() == old(self).state(),
            match res {
                Err(e) => e == StorageError::Io && !old(medium).reliable() && untouched(
                    old(medium),
                    final(medium),
                ),
                Ok(rest) => {
                    &&& final(self).wf(old(medium).spec_geometry())
                    &&& final(self).accepted() + rest@ == old(self).accepted() + data@
                    &&& final(self).cursor() + rest@.len() == old(self).cursor() + data@.len()
                    &&& rest@.len() > 0 ==> final(self).pending().len() == 0
                    &&& old(self).flushed() <= final(self).flushed() <= final(self).cursor()
                    &&& if final(self).flushed() == old(self).flushed() {
                        untouched(old(medium), final(medium))
                    } else {
                        wrote(
                            old(medium),
                            final(medium),
                            true,
                            old(self).location().block as int,
                            old(self).payload_start(old(medium).spec_geometry()) + old(self).flushed(),
                            final(self).accepted().subrange(
                                old(self).flushed(),
                                final(self).flushed(),
                            ),
                        )
                    }
                },
            },
    {
        proof {
            medium.lemma_inv();
            crate::medium::lemma_align(medium.spec_geometry(), 0);
        }
        let g = medium.geometry();
        if staging_is_empty(&self.buffer) {
            assert(self.accepted() + data@ =~= old(self).accepted() + data@);
            return Ok(data);
        }
        let rest = self.fill_buffer(&g, data);
        if self.can_flush(&g) {
            let ghost unit = self.pending();
            proof {
                lemma_align(g, g.word());
            }
            assert(padded(g, unit) =~= unit);
            match self.flush(medium) {
                Ok(()) => {},
                Err(e) => {
                    return Err(e);
                },
            }
            proof {
                lemma_aligned_sum(g, old(self).flushed(), g.word());
            }
            assert(self.pending() =~= self.accepted().subrange(self.flushed(), self.cursor()));
        }
        Ok(rest)
    }

    /// Programs the whole write units at the front of `rest` and stages
    /// what is left of it.
    fn write_through<M: StorageMedium>(&mut self, medium: &mut M, rest: &[u8]) -> (res: Result<
        (),
        StorageError,
    >)
        requires
            old(medium).inv(),
            old(self).wf(old(medium).spec_geometry()),
            old(self).payload_start(old(medium).spec_geometry()) + old(self).cursor() + rest@.len()
                <= old(medium).spec_geometry().block_size,
            old(self).pending().len() == 0 || rest@.len() == 0,
        ensures
            final(medium).inv(),
            final(medium).spec_geometry() == old(medium).spec_geometry(),
            final(medium).reliable() == old(medium).reliable(),
            final(medium).erased() == old(medium).erased(),
            final(self).location() == old(self).location(),
            final(self).state() == old(self).state(),
            match res {
                Err(e) => e == StorageError::Io && !old(medium).reliable() && untouched(
                    old(medium),
                    final(medium),
                ),
                Ok(()) => {
                    &&& final(self).wf(old(medium).spec_geometry())
                    &&& final(self).accepted() == old(self).accepted() + rest@
                    &&& final(self).cursor() == old(self).cursor() + rest@.len()
                    &&& final(self).flushed() == old(medium).spec_geometry().spec_floor(
                        final(self).cursor(),
                    )
                    &&& old(self).flushed() <= final(self).flushed()
                    &&& if final(self).flushed() == old(self).flushed() {
                        untouched(old(medium), final(medium))
                    } else {
                        wrote(
                            old(medium),
                            final(medium),
                            true,
                            old(self).location().block as int,
                            old(self).payload_start(old(medium).spec_geometry()) + old(self).flushed(),
                            final(self).accepted().subrange(
                                old(self).flushed(),
                                final(self).flushed(),
                            ),
                        )
                    }
                },
            },
    {
        proof {
            medium.lemma_inv();
            crate::medium::lemma_align(medium.spec_geometry(), 0);
        }
        let g = medium.geometry();
        let bulk = g.floor(rest.len());
        proof {
            lemma_floor(g, rest@.len() as int);
            lemma_floor(g, 0);
            let start = self.payload_start(g);
            lemma_aligned_sum(g, self.location().offset as int, g.spec_object_header_bytes());
            lemma_aligned_sum(g, start, self.flushed());
            lemma_aligned_sum(g, self.flushed(), bulk as int);
        }
        if bulk > 0 {
            let offset = self.data_write_offset(&g);
            let chunk = slice_subrange(rest, 0, bulk);
            match medium.write(self.location.block, offset, chunk) {
                Ok(()) => {},
                Err(e) => {
                    return Err(e);
                },
            }
            self.cursor = self.cursor + bulk;
            self.accepted = Ghost(self.accepted@ + chunk@);
            assert(self.pending() =~= self.accepted().subrange(self.flushed(), self.cursor()));
            assert(chunk@ =~= self.accepted().subrange(old(self).flushed(), self.flushed()));
        }
        let ghost flushed = self.flushed();
        let ghost before = self.accepted();
        let tail = slice_subrange(rest, bulk, rest.len());
        let _ = self.fill_buffer(&g, tail);
        proof {
            lemma_round_unique(g, self.flushed(), self.cursor());
            assert(self.accepted() =~= before + tail@);
            assert(self.accepted() =~= old(self).accepted() + rest@) by {
                assert(rest@ =~= rest@.subrange(0, bulk as int) + tail@);
            }
            assert(self.accepted().subrange(old(self).flushed(), flushed) =~= before.subrange(
                old(self).flushed(),
                flushed,
            ));
        }
        Ok(())
    }

    /// Appends `data` to the payload. Whole write units go to the medium at
    /// once; a rest waits in the staging buffer.
    pub fn write<M: StorageMedium>(&mut self, medium: &mut M, data: &[u8]) -> (res: Result<
        (),
        StorageError,
    >)
        requires
            old(medium).inv(),
            old(self).wf(old(medium).spec_geometry()),
        ensures
            final(medium).inv(),
            final(medium).spec_geometry() == old(medium).spec_geometry(),
            final(medium).reliable() == old(medium).reliable(),
            final(medium).erased() == old(medium).erased(),
            final(self).location() == old(self).location(),
            final(self).state() == old(self).state(),
            old(self).state() != ObjectState::Allocated ==> res == Err::<(), StorageError>(
                StorageError::InvalidState,
            ),
            old(self).state() == ObjectState::Allocated && old(self).payload_start(
                old(medium).spec_geometry(),
            ) + old(self).cursor() + data@.len() > old(medium).spec_geometry().block_size ==> res
                == Err::<(), StorageError>(StorageError::InsufficientSpace),
            res is Err && res != Err::<(), StorageError>(StorageError::Io) ==> untouched(
                old(medium),
                final(medium),
            ) && final(self).cursor() == old(self).cursor() && final(self).accepted() == old(self).accepted() && final(self).pending() == old(self).pending(),
            res == Err::<(), StorageError>(StorageError::Io) ==> !old(medium).reliable(),
            res is Err ==> res == Err::<(), StorageError>(StorageError::InvalidState) || res
                == Err::<(), StorageError>(StorageError::InsufficientSpace) || res == Err::<
                (),
                StorageError,
            >(StorageError::Io),
            res == Err::<(), StorageError>(StorageError::InvalidState) ==> old(self).state()
                != ObjectState::Allocated,
            res == Err::<(), StorageError>(StorageError::InsufficientSpace) ==> old(self).payload_start(old(medium).spec_geometry()) + old(self).cursor() + data@.len() > old(medium).spec_geometry().block_size,
            grew_within(
                old(medium),
                final(medium),
                old(self).location().block as int,
                old(self).payload_start(old(medium).spec_geometry()) + old(self).flushed(),
                old(self).payload_start(old(medium).spec_geometry()) + old(medium).spec_geometry().spec_floor(old(self).cursor() + data@.len()),
            ),
            res is Ok ==> {
                &&& final(self).wf(old(medium).spec_geometry())
                &&& final(self).accepted() == old(self).accepted() + data@
                &&& final(self).cursor() == old(self).cursor() + data@.len()
                &&& final(self).flushed() == old(medium).spec_geometry().spec_floor(
                    final(self).cursor(),
                )
                &&& final(medium)@ == written(
                    old(medium)@,
                    old(self).location().block as int,
                    old(self).payload_start(old(medium).spec_geometry()) + old(self).flushed(),
                    final(self).accepted().subrange(old(self).flushed(), final(self).flushed()),
                )
            },
    {
        proof {
            medium.lemma_inv();
            crate::medium::lemma_align(medium.spec_geometry(), 0);
        }
        let g = medium.geometry();
        let ghost m0 = medium@;
        let ghost block = self.location().block as int;
        let ghost at = self.payload_start(g) + self.flushed();
        let ghost f0 = self.flushed();
        let ghost hi = self.payload_start(g) + g.spec_floor(self.cursor() + data@.len());
        let ghost total = self.cursor() + data@.len();
        proof {
            lemma_grew_none(old(medium), medium, block, at, hi);
        }
        if !self.object.state.is_allocated() {
            return Err(StorageError::InvalidState);
        }
        if self.space(&g) < data.len() {
            return Err(StorageError::InsufficientSpace);
        }
        let ghost before = *medium;
        let rest = match self.top_up(medium, data) {
            Ok(rest) => rest,
            Err(e) => {
                proof {
                    lemma_grew_none(old(medium), medium, block, at, hi);
                }
                return Err(e);
            },
        };
        let ghost f1 = self.flushed();
        let ghost a1 = self.accepted();
        let ghost first = a1.subrange(f0, f1);
        let ghost m1 = medium@;
        let ghost mid = *medium;
        proof {
            if f1 == f0 {
                lemma_grew_none(old(medium), medium, block, at, hi);
                lemma_written_nothing(m0, block, at);
                assert(first =~= Seq::<u8>::empty());
            } else {
                lemma_round_bound(g, f1, total);
                lemma_written_outside(m0, block, at, first);
                lemma_same_outside_wider(m0, m1, block, at, at + first.len(), at, hi);
                lemma_grew_step(old(medium), old(medium), medium, block, at, hi);
            }
            assert(m1 == written(m0, block, at, first));
        }
        match self.write_through(medium, rest) {
            Ok(()) => {},
            Err(e) => {
                proof {
                    lemma_grew_step_none(old(medium), &mid, medium, block, at, hi);
                }
                return Err(e);
            },
        }
        proof {
            let f2 = self.flushed();
            let a2 = self.accepted();
            let second = a2.subrange(f1, f2);
            assert(a2 =~= old(self).accepted() + data@);
            assert(a2.subrange(f0, f1) =~= first);
            assert(first + second =~= a2.subrange(f0, f2));
            if f2 == f1 {
                lemma_grew_step_none(old(medium), &mid, medium, block, at, hi);
                assert(second =~= Seq::<u8>::empty());
                assert(first + second =~= first);
            } else {
                lemma_round_bound(g, f2, total);
                lemma_written_twice(m0, block, at, first, second);
                lemma_written_outside(m0, block, at, first + second);
                lemma_same_outside_wider(
                    m0,
                    medium@,
                    block,
                    at,
                    at + (first + second).len(),
                    at,
                    hi,
                );
                lemma_grew_step(old(medium), &mid, medium, block, at, hi);
            }
        }
        Ok(())
    }

    /// Closes the object: commits the size where asked, writes out what is
    /// staged, then sets the state.
    fn close<M: StorageMedium>(
        self,
        medium: &mut M,
        commit_size: bool,
        target: ObjectState,
    ) -> (res: Result<(), StorageError>)
        requires
            old(medium).inv(),
            self.wf(old(medium).spec_geometry()),
            target != ObjectState::Free,
        ensures
            res is Err ==> res == Err::<(), StorageError>(StorageError::Io) && !old(medium).reliable(),
            went_through(
                old(medium),
                final(medium),
                closing_steps(
                    old(medium)@,
                    old(medium).spec_geometry(),
                    self.location(),
                    commit_size,
                    self.cursor(),
                    self.payload_start(old(medium).spec_geometry()) + self.flushed(),
                    self.pending(),
                    target,
                ),
                res is Ok,
            ),
    {
        proof {
            medium.lemma_inv();
            crate::medium::lemma_align(medium.spec_geometry(), 0);
        }
        let g = medium.geometry();
        let mut writer = self;
        let ghost t0 = medium.trace();
        let ghost steps = closing_steps(
            medium@,
            g,
            self.location(),
            commit_size,
            self.cursor(),
            self.payload_start(g) + self.flushed(),
            self.pending(),
            target,
        );
        let ghost pending = self.pending();
        proof {
            lemma_align(g, g.spec_object_size_bytes());
            lemma_aligned_sum(g, self.location().offset as int, g.spec_object_status_bytes());
            ObjectState::Finalized.lemma_decode_encoding(g.granularity);
            ObjectState::Deleted.lemma_decode_encoding(g.granularity);
            ObjectState::Allocated.lemma_decode_encoding(g.granularity);
        }
        assert(t0 + steps.take(0) =~= t0);
        if commit_size {
            match writer.write_size(medium) {
                Ok(()) => {},
                Err(e) => {
                    return Err(e);
                },
            }
            assert(medium.trace() =~= t0 + steps.take(1));
        }
        match writer.flush(medium) {
            Ok(()) => {},
            Err(e) => {
                return Err(e);
            },
        }
        proof {
            if pending.len() > 0 {
                assert(medium.trace() =~= t0 + steps.take(steps.len() - 1));
            }
        }
        match writer.set_state(medium, target) {
            Ok(()) => {},
            Err(e) => {
                return Err(e);
            },
        }
        assert(medium.trace() =~= t0 + steps.take(steps.len() as int));
        Ok(())
    }

    /// Completes the object in two separate writes, in this order: first
    /// the payload size is committed to the header, then, after what was
    /// staged is written out, the state becomes finalized. Until the last
    /// write the object still reads as allocated.
    pub fn finalize<M: StorageMedium>(self, medium: &mut M) -> (res: Result<(), StorageError>)
        requires
            old(medium).inv(),
            self.wf(old(medium).spec_geometry()),
        ensures
            res matches Err(e) ==> e.is_fault(),
            self.state() != ObjectState::Allocated ==> res == Err::<(), StorageError>(
                StorageError::InvalidState,
            ) && untouched(old(medium), final(medium)),
            self.state() == ObjectState::Allocated ==> (res is Err ==> res == Err::<
                (),
                StorageError,
            >(StorageError::Io) && !old(medium).reliable()) && went_through(
                old(medium),
                final(medium),
                closing_steps(
                    old(medium)@,
                    old(medium).spec_geometry(),
                    self.location(),
                    true,
                    self.cursor(),
                    self.payload_start(old(medium).spec_geometry()) + self.flushed(),
                    self.pending(),
                    ObjectState::Finalized,
                ),
                res is Ok,
            ),
    {
        if !self.object.state.is_allocated() {
            return Err(StorageError::InvalidState);
        }
        self.close(medium, true, ObjectState::Finalized)
    }

    /// Gives the object up. A free or deleted object stays as it is. For an
    /// allocated object the size is committed first, so that a scan can
    /// step over it; then the state becomes deleted.
    pub fn delete<M: StorageMedium>(self, medium: &mut M) -> (res: Result<(), StorageError>)
        requires
            old(medium).inv(),
            self.wf(old(medium).spec_geometry()),
        ensures
            res matches Err(e) ==> e.is_fault(),
            self.state() == ObjectState::Free || self.state() == ObjectState::Deleted ==> res is Ok
                && untouched(old(medium), final(medium)),
            self.state() == ObjectState::Allocated || self.state() == ObjectState::Finalized ==> (
            res is Err ==> res == Err::<(), StorageError>(StorageError::Io) && !old(medium).reliable()) && went_through(
                old(medium),
                final(medium),
                closing_steps(
                    old(medium)@,
                    old(medium).spec_geometry(),
                    self.location(),
                    self.state() == ObjectState::Allocated,
                    self.cursor(),
                    self.payload_start(old(medium).spec_geometry()) + self.flushed(),
                    self.pending(),
                    ObjectState::Deleted,
                ),
                res is Ok,
            ),
    {
        match self.object.state {
            ObjectState::Free => Ok(()),
            ObjectState::Deleted => Ok(()),
            ObjectState::Allocated => self.close(medium, true, ObjectState::Deleted),
            ObjectState::Finalized => self.close(medium, false, ObjectState::Deleted),
        }
    }
}

} // verus!
