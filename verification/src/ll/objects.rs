//! Objects: the header-prefixed records that a block holds.

use vstd::prelude::*;
use vstd::slice::slice_subrange;

use crate::StorageError;
use crate::ll::blocks::HEADER_BYTES;
use crate::ll::bytes::{
    all_ones, bytes_equal, decode_le, digit_le, is_all_ones, le_bytes, le_digit, le_value,
    lemma_le_bytes_of_value, lemma_le_value_of_bytes,
};
use crate::medium::{
    write_allowed, written, Contents, Geometry, StorageMedium, WriteGranularity, MAX_DIMENSION,
    STATUS_WORD_BYTES,
};

verus! {

/// How far an object has come in its life.
#[derive(Clone, Copy, PartialEq, Eq, Structural, Debug)]
pub enum ObjectState {
    /// Nothing was written here yet.
    Free,
    /// The object was started; its payload is not to be trusted.
    Allocated,
    /// The object is complete.
    Finalized,
    /// The object is no longer in use.
    Deleted,
}

impl ObjectState {
    pub open spec fn spec_is_free(self) -> bool {
        self == ObjectState::Free
    }

    #[verifier::when_used_as_spec(spec_is_free)]
    pub fn is_free(self) -> (b: bool)
        ensures
            b == (self == ObjectState::Free),
    {
        matches!(self, ObjectState::Free)
    }

    pub open spec fn spec_is_allocated(self) -> bool {
        self == ObjectState::Allocated
    }

    #[verifier::when_used_as_spec(spec_is_allocated)]
    pub fn is_allocated(self) -> (b: bool)
        ensures
            b == (self == ObjectState::Allocated),
    {
        matches!(self, ObjectState::Allocated)
    }

    pub open spec fn spec_is_valid(self) -> bool {
        self == ObjectState::Finalized
    }

    #[verifier::when_used_as_spec(spec_is_valid)]
    pub fn is_valid(self) -> (b: bool)
        ensures
            b == (self == ObjectState::Finalized),
    {
        matches!(self, ObjectState::Finalized)
    }

    pub open spec fn spec_is_deleted(self) -> bool {
        self == ObjectState::Deleted
    }

    #[verifier::when_used_as_spec(spec_is_deleted)]
    pub fn is_deleted(self) -> (b: bool)
        ensures
            b == (self == ObjectState::Deleted),
    {
        matches!(self, ObjectState::Deleted)
    }

    pub open spec fn spec_is_used(self) -> bool {
        self != ObjectState::Free
    }

    #[verifier::when_used_as_spec(spec_is_used)]
    pub fn is_used(self) -> (b: bool)
        ensures
            b == (self != ObjectState::Free),
    {
        matches!(self, ObjectState::Allocated | ObjectState::Finalized | ObjectState::Deleted)
    }

    /// The steps an object can take: each state is reached at most once and
    /// none is ever left backwards.
    pub open spec fn may_become(self, next: ObjectState) -> bool {
        match (self, next) {
            (ObjectState::Free, ObjectState::Allocated) => true,
            (ObjectState::Allocated, ObjectState::Finalized) => true,
            (ObjectState::Allocated, ObjectState::Deleted) => true,
            (ObjectState::Finalized, ObjectState::Deleted) => true,
            _ => false,
        }
    }

    /// The byte that stands for the state on a bit-granular medium.
    pub open spec fn spec_bits(self) -> u8 {
        match self {
            ObjectState::Free => 0xFF,
            ObjectState::Allocated => 0xFE,
            ObjectState::Finalized => 0xFC,
            ObjectState::Deleted => 0x00,
        }
    }

    /// The byte that stands for the state on a bit-granular medium.
    pub fn into_bits(self) -> (bits: u8)
        ensures
            bits == self.spec_bits(),
    {
        match self {
            ObjectState::Free => 0xFF,
            ObjectState::Allocated => 0xFE,
            ObjectState::Finalized => 0xFC,
            ObjectState::Deleted => 0x00,
        }
    }

    /// The state that a byte stands for, if any.
    pub open spec fn spec_from_bits(bits: u8) -> Result<ObjectState, StorageError> {
        if bits == 0xFF {
            Ok(ObjectState::Free)
        } else if bits == 0xFE {
            Ok(ObjectState::Allocated)
        } else if bits == 0xFC {
            Ok(ObjectState::Finalized)
        } else if bits == 0x00 {
            Ok(ObjectState::Deleted)
        } else {
            Err(StorageError::Corrupted)
        }
    }

    /// Decodes the state byte of a bit-granular medium.
    pub fn from_bits(bits: u8) -> (res: Result<ObjectState, StorageError>)
        ensures
            res == Self::spec_from_bits(bits),
    {
        match bits {
            0xFF => Ok(ObjectState::Free),
            0xFE => Ok(ObjectState::Allocated),
            0xFC => Ok(ObjectState::Finalized),
            0x00 => Ok(ObjectState::Deleted),
            _ => Err(StorageError::Corrupted),
        }
    }

    /// How many leading bytes of the word pattern are cleared.
    pub open spec fn cleared(self) -> int {
        match self {
            ObjectState::Free => 0,
            ObjectState::Allocated => 4,
            ObjectState::Finalized => 8,
            ObjectState::Deleted => 12,
        }
    }

    /// The twelve bytes that stand for the state on a word-granular medium:
    /// one more group of four bytes is cleared with each step.
    pub open spec fn spec_words(self) -> Seq<u8> {
        Seq::new(
            STATUS_WORD_BYTES as nat,
            |i: int|
                if i < self.cleared() {
                    0x00u8
                } else {
                    0xFFu8
                },
        )
    }

    /// The twelve bytes that stand for the state on a word-granular medium.
    pub fn into_words(self) -> (words: [u8; 12])
        ensures
            words@ == self.spec_words(),
    {
        let words: [u8; 12] = match self {
            ObjectState::Free => [
                0xFF,
                0xFF,
                0xFF,
                0xFF,
                0xFF,
                0xFF,
                0xFF,
                0xFF,
                0xFF,
                0xFF,
                0xFF,
                0xFF,
            ],
            ObjectState::Allocated => [
                0x00,
                0x00,
                0x00,
                0x00,
                0xFF,
                0xFF,
                0xFF,
                0xFF,
                0xFF,
                0xFF,
                0xFF,
                0xFF,
            ],
            ObjectState::Finalized => [
                0x00,
                0x00,
                0x00,
                0x00,
                0x00,
                0x00,
                0x00,
                0x00,
                0xFF,
                0xFF,
                0xFF,
                0xFF,
            ],
            ObjectState::Deleted => [
                0x00,
                0x00,
                0x00,
                0x00,
                0x00,
                0x00,
                0x00,
                0x00,
                0x00,
                0x00,
                0x00,
                0x00,
            ],
        };
        assert(words@ =~= self.spec_words());
        words
    }

    /// The state that twelve bytes stand for, if any.
    pub open spec fn spec_from_words(words: Seq<u8>) -> Result<ObjectState, StorageError> {
        if words == ObjectState::Free.spec_words() {
            Ok(ObjectState::Free)
        } else if words == ObjectState::Allocated.spec_words() {
            Ok(ObjectState::Allocated)
        } else if words == ObjectState::Finalized.spec_words() {
            Ok(ObjectState::Finalized)
        } else if words == ObjectState::Deleted.spec_words() {
            Ok(ObjectState::Deleted)
        } else {
            Err(StorageError::Corrupted)
        }
    }

    /// Decodes the state words of a word-granular medium.
    pub fn from_words(words: &[u8]) -> (res: Result<ObjectState, StorageError>)
        ensures
            res == Self::spec_from_words(words@),
    {
        let free = ObjectState::Free.into_words();
        let allocated = ObjectState::Allocated.into_words();
        let finalized = ObjectState::Finalized.into_words();
        let deleted = ObjectState::Deleted.into_words();
        if bytes_equal(words, &free) {
            Ok(ObjectState::Free)
        } else if bytes_equal(words, &allocated) {
            Ok(ObjectState::Allocated)
        } else if bytes_equal(words, &finalized) {
            Ok(ObjectState::Finalized)
        } else if bytes_equal(words, &deleted) {
            Ok(ObjectState::Deleted)
        } else {
            Err(StorageError::Corrupted)
        }
    }

    /// The bytes that stand for the state on a medium of this granularity.
    pub open spec fn encoding(self, granularity: WriteGranularity) -> Seq<u8> {
        match granularity {
            WriteGranularity::Bit => seq![self.spec_bits()],
            WriteGranularity::Word(_) => self.spec_words(),
        }
    }

    /// The state that the status bytes of a medium of this granularity stand
    /// for, if any.
    pub open spec fn decode(granularity: WriteGranularity, bytes: Seq<u8>) -> Result<
        ObjectState,
        StorageError,
    > {
        match granularity {
            WriteGranularity::Bit => if bytes.len() == 1 {
                Self::spec_from_bits(bytes[0])
            } else {
                Err(StorageError::Corrupted)
            },
            WriteGranularity::Word(_) => Self::spec_from_words(bytes),
        }
    }

    /// Every state is read back from its own encoding.
    pub proof fn lemma_decode_encoding(self, granularity: WriteGranularity)
        ensures
            Self::decode(granularity, self.encoding(granularity)) == Ok::<
                ObjectState,
                StorageError,
            >(self),
            self.encoding(granularity).len() == (match granularity {
                WriteGranularity::Bit => 1int,
                WriteGranularity::Word(_) => 12int,
            }),
    {
        Self::lemma_words_differ();
    }

    /// The four word patterns are pairwise distinct.
    pub proof fn lemma_words_differ()
        ensures
            forall|a: ObjectState, b: ObjectState|
                #![trigger a.spec_words(), b.spec_words()]
                a.spec_words() == b.spec_words() ==> a == b,
    {
        assert forall|a: ObjectState, b: ObjectState|
            #![trigger a.spec_words(), b.spec_words()]
            a.spec_words() == b.spec_words() implies a == b by {
            let wa = a.spec_words();
            let wb = b.spec_words();
            assert(wa[0] == wb[0]);
            assert(wa[4] == wb[4]);
            assert(wa[8] == wb[8]);
        }
    }

    /// A step of the lattice only clears bits: programming the encoding of
    /// the next state over that of the present one leaves exactly the next.
    pub proof fn lemma_step_clears_bits(self, next: ObjectState, granularity: WriteGranularity)
        requires
            self.may_become(next) || self == next,
        ensures
            self.encoding(granularity).len() == next.encoding(granularity).len(),
            forall|i: int|
                0 <= i < self.encoding(granularity).len() ==> #[trigger] self.encoding(
                    granularity,
                )[i] & next.encoding(granularity)[i] == next.encoding(granularity)[i],
    {
        assert(0xFFu8 & 0xFEu8 == 0xFEu8) by (bit_vector);
        assert(0xFEu8 & 0xFCu8 == 0xFCu8) by (bit_vector);
        assert(0xFEu8 & 0x00u8 == 0x00u8) by (bit_vector);
        assert(0xFCu8 & 0x00u8 == 0x00u8) by (bit_vector);
        assert(0xFFu8 & 0xFFu8 == 0xFFu8) by (bit_vector);
        assert(0xFEu8 & 0xFEu8 == 0xFEu8) by (bit_vector);
        assert(0xFCu8 & 0xFCu8 == 0xFCu8) by (bit_vector);
        assert(0x00u8 & 0x00u8 == 0x00u8) by (bit_vector);
        assert(0xFFu8 & 0x00u8 == 0x00u8) by (bit_vector);
    }
}

/// Where an object starts: a block, and a byte offset inside it.
#[derive(Clone, Copy, PartialEq, Eq, Structural, Debug)]
pub struct ObjectLocation {
    pub block: usize,
    pub offset: usize,
}

impl ObjectLocation {
    pub fn new(block: usize, offset: usize) -> (location: Self)
        ensures
            location == (ObjectLocation { block, offset }),
    {
        Self { block, offset }
    }

    /// The location names a byte of the medium.
    pub open spec fn addressable(self, g: Geometry) -> bool {
        self.block < g.block_count && self.offset < g.block_size
    }

    /// The bytes that stand for the location on the medium: the block index,
    /// then the offset, each in as few little-endian bytes as the geometry
    /// needs.
    pub open spec fn encoding(self, g: Geometry) -> Seq<u8> {
        le_bytes(self.block as int, g.spec_block_count_bytes()) + le_bytes(
            self.offset as int,
            g.spec_object_size_bytes(),
        )
    }

    /// Serializes the location. The second component is the number of bytes
    /// used; the rest of the array is zero.
    pub fn into_bytes(self, g: &Geometry) -> (res: ([u8; 8], usize))
        ensures
            res.1 == g.spec_object_location_bytes(),
            res.0@.subrange(0, res.1 as int) == self.encoding(*g),
            forall|k: int| res.1 <= k < 8 ==> res.0@[k] == 0u8,
    {
        let block_bytes = g.block_count_bytes();
        let offset_bytes = g.object_size_bytes();
        let mut bytes = [0u8;8];
        let mut i: usize = 0;
        while i < block_bytes
            invariant
                i <= block_bytes <= 4,
                forall|k: int| 0 <= k < i ==> bytes@[k] == le_digit(self.block as int, k),
                forall|k: int| i <= k < 8 ==> bytes@[k] == 0u8,
            decreases block_bytes - i,
        {
            bytes[i] = digit_le(self.block, i);
            i += 1;
        }
        let mut j: usize = 0;
        while j < offset_bytes
            invariant
                j <= offset_bytes <= 4,
                block_bytes <= 4,
                forall|k: int| 0 <= k < block_bytes ==> bytes@[k] == le_digit(self.block as int, k),
                forall|k: int|
                    block_bytes <= k < block_bytes + j ==> bytes@[k] == le_digit(
                        self.offset as int,
                        k - block_bytes,
                    ),
                forall|k: int| block_bytes + j <= k < 8 ==> bytes@[k] == 0u8,
            decreases offset_bytes - j,
        {
            bytes[block_bytes + j] = digit_le(self.offset, j);
            j += 1;
        }
        assert(bytes@.subrange(0, (block_bytes + offset_bytes) as int) =~= self.encoding(*g));
        (bytes, block_bytes + offset_bytes)
    }

    /// The location that a byte string stands for.
    pub open spec fn spec_from_bytes(g: Geometry, bytes: Seq<u8>) -> Result<
        ObjectLocation,
        StorageError,
    > {
        if bytes.len() != g.spec_object_location_bytes() {
            Err(StorageError::Corrupted)
        } else {
            Ok(
                ObjectLocation {
                    block: le_value(bytes.subrange(0, g.spec_block_count_bytes())) as usize,
                    offset: le_value(
                        bytes.subrange(g.spec_block_count_bytes(), bytes.len() as int),
                    ) as usize,
                },
            )
        }
    }

    /// Reads a serialized location. Fails where the byte count is not the
    /// one the geometry prescribes.
    pub fn from_bytes(g: &Geometry, bytes: &[u8]) -> (res: Result<ObjectLocation, StorageError>)
        ensures
            res == Self::spec_from_bytes(*g, bytes@),
    {
        if bytes.len() != g.object_location_bytes() {
            return Err(StorageError::Corrupted);
        }
        let split = g.block_count_bytes();
        let block_part = slice_subrange(bytes, 0, split);
        let offset_part = slice_subrange(bytes, split, bytes.len());
        proof {
            lemma_le_bytes_of_value(block_part@);
            lemma_le_bytes_of_value(offset_part@);
        }
        Ok(
            ObjectLocation {
                block: decode_le(block_part) as usize,
                offset: decode_le(offset_part) as usize,
            },
        )
    }

    /// A location on the medium is read back from its own encoding, and its
    /// encoding is never the all-ones pattern that stands for "no object".
    pub proof fn lemma_from_bytes_encoding(self, g: Geometry)
        requires
            g.valid(),
            self.addressable(g),
        ensures
            Self::spec_from_bytes(g, self.encoding(g)) == Ok::<ObjectLocation, StorageError>(self),
            self.encoding(g).len() == g.spec_object_location_bytes(),
            !all_ones(self.encoding(g)),
    {
        let bc = g.spec_block_count_bytes();
        let ob = g.spec_object_size_bytes();
        let e = self.encoding(g);
        lemma_le_value_of_bytes(self.block as int, bc);
        lemma_le_value_of_bytes(self.offset as int, ob);
        assert(e.subrange(0, bc) =~= le_bytes(self.block as int, bc));
        assert(e.subrange(bc, e.len() as int) =~= le_bytes(self.offset as int, ob));
        if all_ones(e) {
            let first = le_bytes(self.block as int, bc);
            assert forall|i: int| 0 <= i < first.len() implies #[trigger] first[i] == 0xFFu8 by {
                assert(e[i] == first[i]);
            }
            crate::ll::bytes::lemma_le_value_all_ones(first);
        }
    }
}

/// The head of an object: its state and the size of its payload.
#[derive(Clone, Copy, PartialEq, Eq, Structural, Debug)]
pub struct ObjectHeader {
    pub state: ObjectState,
    /// The payload size as the size field holds it. While the field is
    /// unwritten this is the largest number of its byte count, which no
    /// block can hold.
    pub object_size: usize,
}

/// An object header starting at `offset` lies inside a block.
pub open spec fn header_fits(g: Geometry, offset: int) -> bool {
    0 <= offset && offset + g.spec_object_header_bytes() <= g.block_size
}

/// The bytes of a block that hold the state of the object at `offset`.
pub open spec fn status_field(block: Seq<u8>, g: Geometry, offset: int) -> Seq<u8> {
    block.subrange(offset, offset + g.spec_object_status_bytes())
}

/// The bytes of a block that hold the payload size of the object at `offset`.
pub open spec fn size_field(block: Seq<u8>, g: Geometry, offset: int) -> Seq<u8> {
    block.subrange(
        offset + g.spec_object_status_bytes(),
        offset + g.spec_object_status_bytes() + g.spec_object_size_bytes(),
    )
}

/// The header that the bytes of a block hold at `offset`.
#[verifier::opaque]
pub open spec fn parse_header(block: Seq<u8>, g: Geometry, offset: int) -> Result<
    ObjectHeader,
    StorageError,
> {
    match ObjectState::decode(g.granularity, status_field(block, g, offset)) {
        Ok(state) => Ok(
            ObjectHeader { state, object_size: le_value(size_field(block, g, offset)) as usize },
        ),
        Err(e) => Err(e),
    }
}

/// The header that the medium holds at a location: an access error where
/// the header would leave the medium, a corruption error where the status
/// bytes stand for no state.
pub open spec fn header_at(m: Contents, g: Geometry, location: ObjectLocation) -> Result<
    ObjectHeader,
    StorageError,
> {
    if location.block < g.block_count && header_fits(g, location.offset as int) {
        parse_header(m[location.block as int], g, location.offset as int)
    } else {
        Err(StorageError::Io)
    }
}

/// An object with `payload` bytes of payload has room at `location`: it
/// starts behind the block header and ends inside the block.
pub open spec fn room_at(g: Geometry, location: ObjectLocation, payload: int) -> bool {
    &&& location.block < g.block_count
    &&& HEADER_BYTES <= location.offset
    &&& location.offset + g.spec_object_header_bytes() + payload <= g.block_size
}

/// An operation that only reads left the medium as it was.
pub open spec fn untouched<M: StorageMedium>(before: &M, after: &M) -> bool {
    &&& after.inv()
    &&& after@ == before@
    &&& after.trace() == before.trace()
    &&& after.spec_geometry() == before.spec_geometry()
    &&& after.reliable() == before.reliable()
    &&& after.erased() == before.erased()
}

impl ObjectHeader {
    /// Reads the header of the object at `location`.
    pub fn read<M: StorageMedium>(location: ObjectLocation, medium: &mut M) -> (res: Result<
        ObjectHeader,
        StorageError,
    >)
        requires
            old(medium).inv(),
        ensures
            res matches Err(e) ==> e.is_fault(),
            untouched(old(medium), final(medium)),
            res == header_at(old(medium)@, old(medium).spec_geometry(), location) || (!old(
                medium,
            ).reliable() && res == Err::<ObjectHeader, StorageError>(StorageError::Io)),
    {
        proof {
            medium.lemma_inv();
            crate::medium::lemma_align(medium.spec_geometry(), 0);
            reveal(parse_header);
        }
        let g = medium.geometry();
        let header_bytes = g.object_header_bytes();
        if location.block >= g.block_count || location.offset > g.block_size || header_bytes
            > g.block_size - location.offset {
            return Err(StorageError::Io);
        }
        let status_bytes = g.object_status_bytes();
        let size_bytes = g.object_size_bytes();
        let mut buf: Vec<u8> = vec![0u8; status_bytes + size_bytes];
        match medium.read(location.block, location.offset, buf.as_mut_slice()) {
            Ok(()) => {},
            Err(e) => {
                return Err(e);
            },
        }
        let status = slice_subrange(buf.as_slice(), 0, status_bytes);
        let size = slice_subrange(buf.as_slice(), status_bytes, status_bytes + size_bytes);
        let ghost block = medium@[location.block as int];
        assert(status@ =~= status_field(block, g, location.offset as int));
        assert(size@ =~= size_field(block, g, location.offset as int));
        let state = match g.granularity {
            WriteGranularity::Bit => ObjectState::from_bits(status[0]),
            WriteGranularity::Word(_) => ObjectState::from_words(status),
        };
        match state {
            Ok(state) => {
                proof {
                    lemma_le_bytes_of_value(size@);
                }
                Ok(ObjectHeader { state, object_size: decode_le(size) as usize })
            },
            Err(e) => Err(e),
        }
    }

    /// The payload fits between the header at `offset` and the block's end.
    pub open spec fn fits(self, g: Geometry, offset: int) -> bool {
        offset + g.spec_object_header_bytes() + self.object_size <= g.block_size
    }
}

/// One attempt to program `data` into the medium: it either took place as
/// a single step of the trace, or failed and left the medium as it was. On a
/// reliable medium it takes place whenever the medium accepts the range.
pub open spec fn wrote<M: StorageMedium>(
    before: &M,
    after: &M,
    done: bool,
    block: int,
    offset: int,
    data: Seq<u8>,
) -> bool {
    &&& after.inv()
    &&& after.spec_geometry() == before.spec_geometry()
    &&& after.reliable() == before.reliable()
    &&& after.erased() == before.erased()
    &&& done ==> write_allowed(before.spec_geometry(), block, offset, data.len() as int)
        && after@ == written(before@, block, offset, data) && after.trace()
        == before.trace().push(after@)
    &&& !done ==> after@ == before@ && after.trace() == before.trace()
    &&& before.reliable() && write_allowed(
        before.spec_geometry(),
        block,
        offset,
        data.len() as int,
    ) ==> done
}

/// `bytes`, filled up with set bits to a whole number of write units.
pub open spec fn padded(g: Geometry, bytes: Seq<u8>) -> Seq<u8> {
    bytes + Seq::new((g.spec_align(bytes.len() as int) - bytes.len()) as nat, |i: int| 0xFFu8)
}

/// The bytes that are programmed into the size field for a payload of
/// `size` bytes.
pub open spec fn size_encoding(g: Geometry, size: int) -> Seq<u8> {
    padded(g, le_bytes(size, g.spec_object_size_bytes()))
}

/// Copies `bytes` into a vector and fills it up with set bits to a whole
/// number of write units.
pub fn pad(g: &Geometry, bytes: &[u8]) -> (out: Vec<u8>)
    requires
        g.valid(),
        bytes@.len() <= MAX_DIMENSION,
    ensures
        out@ == padded(*g, bytes@),
        out@.len() == g.spec_align(bytes@.len() as int),
{
    let total = g.align(bytes.len());
    let mut out: Vec<u8> = Vec::new();
    let mut i: usize = 0;
    while i < total
        invariant
            i <= total,
            bytes@.len() <= total,
            out@.len() == i,
            forall|k: int| 0 <= k < i && k < bytes@.len() ==> out@[k] == bytes@[k],
            forall|k: int| bytes@.len() <= k < i ==> out@[k] == 0xFFu8,
        decreases total - i,
    {
        if i < bytes.len() {
            out.push(bytes[i]);
        } else {
            out.push(0xFFu8);
        }
        i += 1;
    }
    assert(out@ =~= padded(*g, bytes@));
    out
}

/// Single writes to the header of an object.
pub struct ObjectOps;

impl ObjectOps {
    /// Programs the encoding of `state` over the status bytes of the object
    /// at `location`. No object is ever made free again.
    pub fn update_state<M: StorageMedium>(
        medium: &mut M,
        location: ObjectLocation,
        state: ObjectState,
    ) -> (res: Result<(), StorageError>)
        requires
            old(medium).inv(),
        ensures
            state == ObjectState::Free ==> res == Err::<(), StorageError>(
                StorageError::InvalidState,
            ) && untouched(old(medium), final(medium)),
            state != ObjectState::Free ==> wrote(
                old(medium),
                final(medium),
                res is Ok,
                location.block as int,
                location.offset as int,
                state.encoding(old(medium).spec_geometry().granularity),
            ) && (res is Err ==> res == Err::<(), StorageError>(StorageError::Io)),
    {
        if state.is_free() {
            return Err(StorageError::InvalidState);
        }
        let g = medium.geometry();
        match g.granularity {
            WriteGranularity::Bit => {
                let bits = [state.into_bits()];
                assert(bits@ =~= state.encoding(g.granularity));
                medium.write(location.block, location.offset, &bits)
            },
            WriteGranularity::Word(_) => {
                let words = state.into_words();
                medium.write(location.block, location.offset, &words)
            },
        }
    }

    /// Programs the payload size into the size field of the object at
    /// `location`.
    pub fn set_payload_size<M: StorageMedium>(
        medium: &mut M,
        location: ObjectLocation,
        size: usize,
    ) -> (res: Result<(), StorageError>)
        requires
            old(medium).inv(),
        ensures
            res is Err ==> res == Err::<(), StorageError>(StorageError::Io),
            location.offset <= old(medium).spec_geometry().block_size ==> wrote(
                old(medium),
                final(medium),
                res is Ok,
                location.block as int,
                location.offset + old(medium).spec_geometry().spec_object_status_bytes(),
                size_encoding(old(medium).spec_geometry(), size as int),
            ),
            location.offset > old(medium).spec_geometry().block_size ==> res is Err && untouched(
                old(medium),
                final(medium),
            ),
    {
        proof {
            medium.lemma_inv();
            crate::medium::lemma_align(medium.spec_geometry(), 0);
        }
        let g = medium.geometry();
        if location.offset > g.block_size {
            return Err(StorageError::Io);
        }
        let count = g.object_size_bytes();
        let mut digits: Vec<u8> = Vec::new();
        let mut i: usize = 0;
        while i < count
            invariant
                i <= count <= 4,
                digits@.len() == i,
                forall|k: int| 0 <= k < i ==> digits@[k] == le_digit(size as int, k),
            decreases count - i,
        {
            digits.push(digit_le(size, i));
            i += 1;
        }
        assert(digits@ =~= le_bytes(size as int, count as int));
        let field = pad(&g, digits.as_slice());
        medium.write(location.block, location.offset + g.object_status_bytes(), field.as_slice())
    }
}

/// The payload of the object at `location`, as far as the header's size
/// reaches.
pub open spec fn payload_at(m: Contents, g: Geometry, location: ObjectLocation, size: int) -> Seq<
    u8,
> {
    m[location.block as int].subrange(
        location.offset + g.spec_object_header_bytes(),
        location.offset + g.spec_object_header_bytes() + size,
    )
}

/// The payload of an object that lies inside its block has the size that
/// the header gives.
pub proof fn lemma_payload_len(m: Contents, g: Geometry, location: ObjectLocation, size: int)
    requires
        g.valid(),
        crate::medium::shaped(m, g),
        location.block < g.block_count,
        0 <= size,
        location.offset + g.spec_object_header_bytes() + size <= g.block_size,
    ensures
        payload_at(m, g, location, size).len() == size,
{
    crate::medium::lemma_align(g, 0);
}

/// A cursor over the payload of one finalized object.
pub struct ObjectReader {
    location: ObjectLocation,
    object: ObjectHeader,
    cursor: usize,
}

impl ObjectReader {
    /// Where the object starts.
    pub closed spec fn location(&self) -> ObjectLocation {
        self.location
    }

    /// The header of the object, as it was read when the reader was opened.
    pub closed spec fn header(&self) -> ObjectHeader {
        self.object
    }

    /// The number of payload bytes that were read.
    pub closed spec fn cursor(&self) -> int {
        self.cursor as int
    }

    /// No reader has read fewer bytes than none.
    pub proof fn lemma_cursor(&self)
        ensures
            0 <= self.cursor(),
    {
    }

    /// The reader stays inside its object, and the object inside its block.
    pub open spec fn wf(&self, g: Geometry) -> bool {
        &&& g.valid()
        &&& self.location().block < g.block_count
        &&& self.header().state == ObjectState::Finalized
        &&& self.header().fits(g, self.location().offset as int)
        &&& 0 <= self.cursor() <= self.header().object_size
    }

    /// What opening a reader on `location` gives.
    pub open spec fn spec_new(m: Contents, g: Geometry, location: ObjectLocation) -> Result<
        ObjectHeader,
        StorageError,
    > {
        match header_at(m, g, location) {
            Err(e) => Err(e),
            Ok(header) => if header.state != ObjectState::Finalized {
                Err(StorageError::InvalidState)
            } else if !header.fits(g, location.offset as int) {
                Err(StorageError::Corrupted)
            } else {
                Ok(header)
            },
        }
    }

    /// Opens a reader on the object at `location`, which must be finalized.
    pub fn new<M: StorageMedium>(location: ObjectLocation, medium: &mut M) -> (res: Result<
        ObjectReader,
        StorageError,
    >)
        requires
            old(medium).inv(),
        ensures
            res matches Err(e) ==> e.is_fault(),
            untouched(old(medium), final(medium)),
            match res {
                Ok(reader) => Self::spec_new(old(medium)@, old(medium).spec_geometry(), location)
                    == Ok::<ObjectHeader, StorageError>(reader.header()) && reader.location()
                    == location && reader.cursor() == 0 && reader.wf(old(medium).spec_geometry()),
                Err(e) => Self::spec_new(old(medium)@, old(medium).spec_geometry(), location)
                    == Err::<ObjectHeader, StorageError>(e) || (!old(medium).reliable() && e
                    == StorageError::Io),
            },
    {
        proof {
            medium.lemma_inv();
            crate::medium::lemma_align(medium.spec_geometry(), 0);
        }
        let g = medium.geometry();
        let object = match ObjectHeader::read(location, medium) {
            Ok(object) => object,
            Err(e) => {
                return Err(e);
            },
        };
        if !object.state.is_valid() {
            return Err(StorageError::InvalidState);
        }
        proof {
            lemma_header_errors(medium@, g, location);
        }
        if object.object_size > g.block_size - location.offset - g.object_header_bytes() {
            return Err(StorageError::Corrupted);
        }
        Ok(ObjectReader { location, object, cursor: 0 })
    }

    /// The size of the payload.
    pub fn len(&self) -> (n: usize)
        ensures
            n == self.header().object_size,
    {
        self.object.object_size
    }

    /// The number of payload bytes that were not read yet.
    pub fn remaining(&self) -> (n: usize)
        requires
            self.cursor() <= self.header().object_size,
        ensures
            n == self.header().object_size - self.cursor(),
            0 <= self.cursor(),
            n <= self.header().object_size,
    {
        self.object.object_size - self.cursor
    }

    /// Starts over at the first payload byte.
    pub fn rewind(&mut self)
        ensures
            final(self).cursor() == 0,
            final(self).location() == old(self).location(),
            final(self).header() == old(self).header(),
    {
        self.cursor = 0;
    }

    /// Reads the next payload bytes into the front of `buf`: as many as it
    /// holds, or as are left. Returns their number.
    pub fn read<M: StorageMedium>(&mut self, medium: &mut M, buf: &mut [u8]) -> (res: Result<
        usize,
        StorageError,
    >)
        requires
            old(medium).inv(),
            old(self).wf(old(medium).spec_geometry()),
        ensures
            res matches Err(e) ==> e.is_fault(),
            untouched(old(medium), final(medium)),
            final(self).location() == old(self).location(),
            final(self).header() == old(self).header(),
            final(self).wf(old(medium).spec_geometry()),
            final(buf)@.len() == old(buf)@.len(),
            match res {
                Ok(n) => {
                    &&& n == vstd::math::min(
                        old(buf)@.len() as int,
                        old(self).header().object_size - old(self).cursor(),
                    )
                    &&& final(self).cursor() == old(self).cursor() + n
                    &&& final(buf)@.subrange(0, n as int) == payload_at(
                        old(medium)@,
                        old(medium).spec_geometry(),
                        old(self).location(),
                        old(self).header().object_size as int,
                    ).subrange(old(self).cursor(), old(self).cursor() + n)
                    &&& final(buf)@.subrange(n as int, old(buf)@.len() as int) == old(
                        buf,
                    )@.subrange(n as int, old(buf)@.len() as int)
                },
                Err(e) => e == StorageError::Io && !old(medium).reliable() && final(self).cursor()
                    == old(self).cursor() && final(buf)@ == old(buf)@,
            },
    {
        proof {
            medium.lemma_inv();
            crate::medium::lemma_align(medium.spec_geometry(), 0);
        }
        let g = medium.geometry();
        let left = self.remaining();
        let count = if buf.len() < left {
            buf.len()
        } else {
            left
        };
        let start = self.location.offset + g.object_header_bytes() + self.cursor;
        let mut chunk: Vec<u8> = vec![0u8; count];
        match medium.read(self.location.block, start, chunk.as_mut_slice()) {
            Ok(()) => {},
            Err(e) => {
                return Err(e);
            },
        }
        let mut i: usize = 0;
        while i < count
            invariant
                i <= count <= buf@.len(),
                count == chunk@.len(),
                buf@.len() == old(buf)@.len(),
                forall|k: int| 0 <= k < i ==> buf@[k] == chunk@[k],
                forall|k: int| i <= k < buf@.len() ==> buf@[k] == old(buf)@[k],
            decreases count - i,
        {
            buf[i] = chunk[i];
            i += 1;
        }
        self.cursor = self.cursor + count;
        assert(buf@.subrange(0, count as int) =~= chunk@);
        assert(chunk@ =~= payload_at(
            medium@,
            g,
            self.location,
            self.object.object_size as int,
        ).subrange(old(self).cursor(), old(self).cursor() + count));
        assert(buf@.subrange(count as int, buf@.len() as int) =~= old(buf)@.subrange(
            count as int,
            buf@.len() as int,
        ));
        Ok(count)
    }
}

/// An object that a scan came by: where it starts and what its header says.
#[derive(Clone, Copy, PartialEq, Eq, Structural, Debug)]
pub struct ObjectInfo {
    pub location: ObjectLocation,
    pub header: ObjectHeader,
}

impl ObjectInfo {
    /// The number of bytes from the start of the object to the end of its
    /// payload.
    pub open spec fn spec_total_size(&self, g: Geometry) -> int {
        self.header.object_size + g.spec_object_header_bytes()
    }

    /// The number of bytes from the start of the object to the end of its
    /// payload.
    pub fn total_size(&self, g: &Geometry) -> (n: usize)
        requires
            g.valid(),
            self.header.object_size <= MAX_DIMENSION,
        ensures
            n == self.spec_total_size(*g),
    {
        self.header.object_size + g.object_header_bytes()
    }

    /// Where the next object starts: behind the payload, on the next write
    /// unit. An object whose size field does not fit into the block, as one
    /// whose size was never written, reaches to the block's end.
    #[verifier::opaque]
    pub open spec fn end(&self, g: Geometry) -> int {
        if self.header.fits(g, self.location.offset as int) {
            g.spec_align(self.location.offset + self.spec_total_size(g))
        } else {
            g.block_size as int
        }
    }
}

/// An object that starts on a write unit inside the block ends behind its
/// start, on a write unit inside the block.
pub proof fn lemma_end_bounds(info: ObjectInfo, g: Geometry)
    requires
        g.valid(),
        header_fits(g, info.location.offset as int),
        g.aligned(info.location.offset as int),
    ensures
        info.location.offset < info.end(g) <= g.block_size,
        g.aligned(info.end(g)),
        info.header.fits(g, info.location.offset as int) ==> info.location.offset
            + info.spec_total_size(g) <= info.end(g),
{
    reveal(ObjectInfo::end);
    crate::medium::lemma_align(g, 0);
    crate::medium::lemma_align(g, info.location.offset + info.spec_total_size(g));
    crate::medium::lemma_aligned_sum(g, 0, 0);
    if info.header.fits(g, info.location.offset as int) {
        let raw = info.location.offset + info.spec_total_size(g);
        let up = g.spec_align(raw);
        assert(raw <= g.block_size);
        assert(up <= g.block_size) by {
            crate::medium::lemma_align(g, raw);
            if up > g.block_size {
                crate::medium::lemma_aligned_sum(g, up, g.block_size as int);
                crate::medium::lemma_small_multiple(g, up - g.block_size);
            }
        }
    }
}

/// What one step of a scan finds at `location`.
pub enum Step {
    /// The used part of the block ends here.
    End,
    /// An object starts here.
    Object(ObjectInfo),
    /// The bytes here cannot be read as a header.
    Failed(StorageError),
}

/// What a scan finds at `location`: the end of the used part of the block
/// where no header fits or the header is free, else an object.
pub open spec fn step_at(m: Contents, g: Geometry, location: ObjectLocation) -> Step {
    if !header_fits(g, location.offset as int) {
        Step::End
    } else {
        match header_at(m, g, location) {
            Err(e) => Step::Failed(e),
            Ok(header) => if header.state == ObjectState::Free {
                Step::End
            } else {
                Step::Object(ObjectInfo { location, header })
            },
        }
    }
}

/// Where a scan finds an object, the object starts where the scan looked,
/// its header lies inside the block, and its state is not free.
pub proof fn lemma_step_object(m: Contents, g: Geometry, location: ObjectLocation, info: ObjectInfo)
    requires
        step_at(m, g, location) == Step::Object(info),
    ensures
        info.location == location,
        header_fits(g, location.offset as int),
        location.block < g.block_count,
        header_at(m, g, location) == Ok::<ObjectHeader, StorageError>(info.header),
        info.header.state != ObjectState::Free,
{
}

/// A header fails to be read either because it would leave the medium, or
/// because its status bytes stand for no state.
pub proof fn lemma_header_errors(m: Contents, g: Geometry, location: ObjectLocation)
    ensures
        header_at(m, g, location) matches Err(e) ==> e == StorageError::Io || e
            == StorageError::Corrupted,
        header_at(m, g, location) == Err::<ObjectHeader, StorageError>(StorageError::Io) <==> !(
        location.block < g.block_count && header_fits(g, location.offset as int)),
        location.block < g.block_count ==> forall|e: StorageError|
            step_at(m, g, location) == Step::Failed(e) ==> e == StorageError::Corrupted,
{
    reveal(parse_header);
}

/// A walk over the objects of one block, from the front.
pub struct ObjectIterator {
    location: ObjectLocation,
}

impl ObjectIterator {
    /// Where the next step looks.
    pub closed spec fn location(&self) -> ObjectLocation {
        self.location
    }

    /// Starts behind the header of `block`.
    pub fn new(block: usize) -> (iter: Self)
        ensures
            iter.location() == (ObjectLocation { block, offset: HEADER_BYTES }),
    {
        Self { location: ObjectLocation { block, offset: HEADER_BYTES } }
    }

    /// Starts at `location`: the start of an object, or the end of the used
    /// part of its block.
    pub fn resume(location: ObjectLocation) -> (iter: Self)
        ensures
            iter.location() == location,
    {
        Self { location }
    }

    /// Reads the header at the present location and moves behind the
    /// object. Returns `None`, and stays, at the end of the used part of
    /// the block.
    pub fn next<M: StorageMedium>(&mut self, medium: &mut M) -> (res: Result<
        Option<ObjectInfo>,
        StorageError,
    >)
        requires
            old(medium).inv(),
        ensures
            res matches Err(e) ==> e.is_fault(),
            untouched(old(medium), final(medium)),
            final(self).location().block == old(self).location().block,
            match res {
                Ok(None) => step_at(old(medium)@, old(medium).spec_geometry(), old(self).location())
                    == Step::End && final(self).location() == old(self).location(),
                Ok(Some(info)) => step_at(
                    old(medium)@,
                    old(medium).spec_geometry(),
                    old(self).location(),
                ) == Step::Object(info) && final(self).location().offset == info.end(
                    old(medium).spec_geometry(),
                ),
                Err(e) => final(self).location() == old(self).location() && (step_at(
                    old(medium)@,
                    old(medium).spec_geometry(),
                    old(self).location(),
                ) == Step::Failed(e) || (!old(medium).reliable() && e == StorageError::Io)),
            },
    {
        proof {
            medium.lemma_inv();
            crate::medium::lemma_align(medium.spec_geometry(), 0);
        }
        let g = medium.geometry();
        let location = self.location;
        let header_bytes = g.object_header_bytes();
        proof {
            reveal(ObjectInfo::end);
        }
        if location.offset > g.block_size || header_bytes > g.block_size - location.offset {
            return Ok(None);
        }
        let header = match ObjectHeader::read(location, medium) {
            Ok(header) => header,
            Err(e) => {
                return Err(e);
            },
        };
        if header.state.is_free() {
            return Ok(None);
        }
        let info = ObjectInfo { location, header };
        if header.object_size <= g.block_size - location.offset - header_bytes {
            self.location.offset = g.align(location.offset + info.total_size(&g));
        } else {
            self.location.offset = g.block_size;
        }
        Ok(Some(info))
    }

    /// The offset at which the next step looks.
    pub fn current_offset(&self) -> (offset: usize)
        ensures
            offset == self.location().offset,
    {
        self.location.offset
    }
}

/// The number of bytes that hold the hash of a path.
pub const HASH_BYTES: usize = 4;

/// One step of the path hash: the byte is mixed in, then the state is
/// multiplied, modulo two to the power of 32.
pub open spec fn hash_step(state: u32, byte: u8) -> u32 {
    (((state ^ (byte as u32)) * 16777619) % 0x1_0000_0000) as u32
}

/// The hash under which a path is filed: the 32-bit FNV-1a hash of its
/// bytes.
pub open spec fn path_hash(path: Seq<u8>) -> u32
    decreases path.len(),
{
    if path.len() == 0 {
        0x811C_9DC5u32
    } else {
        hash_step(path_hash(path.drop_last()), path.last())
    }
}

/// Computes the hash under which a path is filed.
pub fn hash_path(path: &[u8]) -> (hash: u32)
    ensures
        hash == path_hash(path@),
{
    let mut hash: u32 = 0x811C_9DC5;
    let mut i: usize = 0;
    while i < path.len()
        invariant
            i <= path@.len(),
            hash == path_hash(path@.take(i as int)),
        decreases path@.len() - i,
    {
        assert(path@.take(i + 1).drop_last() =~= path@.take(i as int));
        hash = ((((hash ^ (path[i] as u32)) as u64) * 16777619u64) % 0x1_0000_0000u64) as u32;
        i += 1;
    }
    assert(path@.take(path@.len() as int) =~= path@);
    hash
}

/// The bytes that stand for a link to another object: its location, or all
/// ones where there is none.
pub open spec fn link_encoding(g: Geometry, link: Option<ObjectLocation>) -> Seq<u8> {
    match link {
        Some(location) => location.encoding(g),
        None => Seq::new(g.spec_object_location_bytes() as nat, |i: int| 0xFFu8),
    }
}

/// The link that a byte string of the length of a location stands for.
pub open spec fn parse_link(g: Geometry, bytes: Seq<u8>) -> Option<ObjectLocation> {
    if all_ones(bytes) {
        None
    } else {
        match ObjectLocation::spec_from_bytes(g, bytes) {
            Ok(location) => Some(location),
            Err(_) => None,
        }
    }
}

/// Serializes a link. The second component is the number of bytes used.
pub fn link_into_bytes(g: &Geometry, link: Option<ObjectLocation>) -> (res: ([u8; 8], usize))
    ensures
        res.1 == g.spec_object_location_bytes(),
        res.0@.subrange(0, res.1 as int) == link_encoding(*g, link),
{
    match link {
        Some(location) => location.into_bytes(g),
        None => {
            let bytes = [0xFFu8;8];
            let count = g.object_location_bytes();
            assert(bytes@.subrange(0, count as int) =~= link_encoding(*g, link));
            (bytes, count)
        },
    }
}

/// Reads a serialized link.
pub fn link_from_bytes(g: &Geometry, bytes: &[u8]) -> (link: Option<ObjectLocation>)
    ensures
        link == parse_link(*g, bytes@),
{
    if is_all_ones(bytes) {
        None
    } else {
        match ObjectLocation::from_bytes(g, bytes) {
            Ok(location) => Some(location),
            Err(_) => None,
        }
    }
}

/// A link is read back from its own encoding.
pub proof fn lemma_parse_link_encoding(g: Geometry, link: Option<ObjectLocation>)
    requires
        g.valid(),
        link matches Some(location) ==> location.addressable(g),
    ensures
        parse_link(g, link_encoding(g, link)) == link,
        link_encoding(g, link).len() == g.spec_object_location_bytes(),
{
    match link {
        Some(location) => {
            location.lemma_from_bytes_encoding(g);
        },
        None => {},
    }
}

/// The number of payload bytes of a metadata object.
pub open spec fn spec_metadata_bytes(g: Geometry) -> int {
    HASH_BYTES + 2 * g.spec_object_location_bytes()
}

/// The number of payload bytes of a metadata object.
pub fn metadata_bytes(g: &Geometry) -> (n: usize)
    ensures
        n == spec_metadata_bytes(*g),
        8 <= n <= 20,
{
    HASH_BYTES + 2 * g.object_location_bytes()
}

/// The payload of a metadata object: the hash of the path, the location of
/// the object that holds the file's name, and the link to the first data
/// object.
pub open spec fn metadata_encoding(
    g: Geometry,
    hash: u32,
    name: ObjectLocation,
    data: Option<ObjectLocation>,
) -> Seq<u8> {
    le_bytes(hash as int, HASH_BYTES as int) + name.encoding(g) + link_encoding(g, data)
}

/// The object that names a file: it holds the hash of the file's path and
/// says where the name and the first part of the contents are.
#[derive(Clone, Copy, PartialEq, Eq, Structural, Debug)]
pub struct MetadataObjectHeader {
    pub object: ObjectHeader,
    pub path_hash: u32,
    pub filename_location: ObjectLocation,
    pub first_data: Option<ObjectLocation>,
    pub location: ObjectLocation,
}

/// The metadata that a payload stands for.
pub open spec fn parse_metadata(
    g: Geometry,
    location: ObjectLocation,
    object: ObjectHeader,
    payload: Seq<u8>,
) -> MetadataObjectHeader {
    let split = HASH_BYTES + g.spec_object_location_bytes();
    MetadataObjectHeader {
        object,
        path_hash: le_value(payload.subrange(0, HASH_BYTES as int)) as u32,
        filename_location: ObjectLocation::spec_from_bytes(
            g,
            payload.subrange(HASH_BYTES as int, split),
        ).unwrap(),
        first_data: parse_link(g, payload.subrange(split, payload.len() as int)),
        location,
    }
}

/// The metadata object that the medium holds at `location`: it must be
/// finalized and have the payload size of a metadata object.
pub open spec fn metadata_at(m: Contents, g: Geometry, location: ObjectLocation) -> Result<
    MetadataObjectHeader,
    StorageError,
> {
    match ObjectReader::spec_new(m, g, location) {
        Err(e) => Err(e),
        Ok(object) => if object.object_size != spec_metadata_bytes(g) {
            Err(StorageError::Corrupted)
        } else {
            Ok(
                parse_metadata(
                    g,
                    location,
                    object,
                    payload_at(m, g, location, object.object_size as int),
                ),
            )
        },
    }
}

/// Reads the rest of the object that `reader` stands on.
pub fn read_rest<M: StorageMedium>(reader: &mut ObjectReader, medium: &mut M) -> (res: Result<
    Vec<u8>,
    StorageError,
>)
    requires
        old(medium).inv(),
        old(reader).wf(old(medium).spec_geometry()),
    ensures
        res matches Err(e) ==> e.is_fault(),
        untouched(old(medium), final(medium)),
        final(reader).location() == old(reader).location(),
        final(reader).header() == old(reader).header(),
        final(reader).wf(old(medium).spec_geometry()),
        match res {
            Ok(bytes) => bytes@ == payload_at(
                old(medium)@,
                old(medium).spec_geometry(),
                old(reader).location(),
                old(reader).header().object_size as int,
            ).subrange(old(reader).cursor(), old(reader).header().object_size as int)
                && final(reader).cursor() == old(reader).header().object_size,
            Err(e) => e == StorageError::Io && !old(medium).reliable(),
        },
{
    let count = reader.remaining();
    let mut bytes: Vec<u8> = vec![0u8; count];
    match reader.read(medium, bytes.as_mut_slice()) {
        Ok(n) => {
            assert(bytes@.subrange(0, n as int) =~= bytes@);
            Ok(bytes)
        },
        Err(e) => Err(e),
    }
}

impl MetadataObjectHeader {
    /// Reads the metadata object at `location`.
    pub fn read<M: StorageMedium>(location: ObjectLocation, medium: &mut M) -> (res: Result<
        MetadataObjectHeader,
        StorageError,
    >)
        requires
            old(medium).inv(),
        ensures
            res matches Err(e) ==> e.is_fault(),
            untouched(old(medium), final(medium)),
            res == metadata_at(old(medium)@, old(medium).spec_geometry(), location) || (!old(
                medium,
            ).reliable() && res == Err::<MetadataObjectHeader, StorageError>(StorageError::Io)),
    {
        proof {
            medium.lemma_inv();
            crate::medium::lemma_align(medium.spec_geometry(), 0);
        }
        let g = medium.geometry();
        let mut reader = match ObjectReader::new(location, medium) {
            Ok(reader) => reader,
            Err(e) => {
                return Err(e);
            },
        };
        if reader.len() != metadata_bytes(&g) {
            return Err(StorageError::Corrupted);
        }
        let payload = match read_rest(&mut reader, medium) {
            Ok(payload) => payload,
            Err(e) => {
                return Err(e);
            },
        };
        let ghost whole = payload_at(medium@, g, location, reader.header().object_size as int);
        assert(payload@ =~= whole);
        let split = HASH_BYTES + g.object_location_bytes();
        let hash_part = slice_subrange(payload.as_slice(), 0, HASH_BYTES);
        let name_part = slice_subrange(payload.as_slice(), HASH_BYTES, split);
        let data_part = slice_subrange(payload.as_slice(), split, payload.len());
        let filename_location = match ObjectLocation::from_bytes(&g, name_part) {
            Ok(location) => location,
            Err(e) => {
                return Err(e);
            },
        };
        proof {
            lemma_le_bytes_of_value(hash_part@);
        }
        Ok(
            MetadataObjectHeader {
                object: ObjectHeader {
                    state: ObjectState::Finalized,
                    object_size: reader.len(),
                },
                path_hash: decode_le(hash_part),
                filename_location,
                first_data: link_from_bytes(&g, data_part),
                location,
            },
        )
    }
}

/// The head of an object that holds a part of a file's contents: behind the
/// object header, the payload starts with the link to the next part.
#[derive(Clone, Copy, PartialEq, Eq, Structural, Debug)]
pub struct DataObjectHeader {
    pub object: ObjectHeader,
    pub next: Option<ObjectLocation>,
    pub location: ObjectLocation,
}

/// The data object that the medium holds at `location`: it must be
/// finalized and large enough for its link.
pub open spec fn data_at(m: Contents, g: Geometry, location: ObjectLocation) -> Result<
    DataObjectHeader,
    StorageError,
> {
    match ObjectReader::spec_new(m, g, location) {
        Err(e) => Err(e),
        Ok(object) => if object.object_size < g.spec_object_location_bytes() {
            Err(StorageError::Corrupted)
        } else {
            Ok(
                DataObjectHeader {
                    object,
                    next: parse_link(
                        g,
                        payload_at(m, g, location, object.object_size as int).subrange(
                            0,
                            g.spec_object_location_bytes(),
                        ),
                    ),
                    location,
                },
            )
        },
    }
}

/// The part of a file's contents that the data object at `location` holds.
pub open spec fn chunk_at(m: Contents, g: Geometry, location: ObjectLocation, size: int) -> Seq<u8> {
    payload_at(m, g, location, size).subrange(g.spec_object_location_bytes(), size)
}

impl DataObjectHeader {
    /// Reads the head of the data object at `location`, and leaves a reader
    /// on the first byte of the part of the contents that it holds.
    pub fn read<M: StorageMedium>(location: ObjectLocation, medium: &mut M) -> (res: Result<
        (DataObjectHeader, ObjectReader),
        StorageError,
    >)
        requires
            old(medium).inv(),
        ensures
            res matches Err(e) ==> e.is_fault(),
            untouched(old(medium), final(medium)),
            match res {
                Ok((data, reader)) => data_at(old(medium)@, old(medium).spec_geometry(), location)
                    == Ok::<DataObjectHeader, StorageError>(data) && reader.location() == location
                    && reader.header() == data.object && reader.cursor() == old(
                    medium,
                ).spec_geometry().spec_object_location_bytes() && reader.wf(
                    old(medium).spec_geometry(),
                ),
                Err(e) => data_at(old(medium)@, old(medium).spec_geometry(), location) == Err::<
                    DataObjectHeader,
                    StorageError,
                >(e) || (!old(medium).reliable() && e == StorageError::Io),
            },
    {
        proof {
            medium.lemma_inv();
            crate::medium::lemma_align(medium.spec_geometry(), 0);
        }
        let g = medium.geometry();
        let mut reader = match ObjectReader::new(location, medium) {
            Ok(reader) => reader,
            Err(e) => {
                return Err(e);
            },
        };
        let count = g.object_location_bytes();
        if reader.len() < count {
            return Err(StorageError::Corrupted);
        }
        let mut link: Vec<u8> = vec![0u8; count];
        match reader.read(medium, link.as_mut_slice()) {
            Ok(_) => {},
            Err(e) => {
                return Err(e);
            },
        }
        assert(link@ =~= link@.subrange(0, count as int));
        Ok(
            (
                DataObjectHeader {
                    object: ObjectHeader {
                        state: ObjectState::Finalized,
                        object_size: reader.len(),
                    },
                    next: link_from_bytes(&g, link.as_slice()),
                    location,
                },
                reader,
            ),
        )
    }
}

} // verus!
