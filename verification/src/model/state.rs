//! The bookkeeping behind consistency: which object of the medium belongs
//! to which file.

use vstd::prelude::*;

use crate::StorageError;
use crate::ll::blocks::{
    block_header, block_laid_out, end_of, formatted, laid_out, lemma_layout_bounds, place_of,
    BlockLayout, BlockType, HEADER_BYTES,
};
use crate::ll::bytes::{le_bytes, lemma_le_value_of_bytes};
use crate::ll::objects::{
    chunk_at, header_at, header_fits, lemma_end_bounds, lemma_parse_link_encoding,
    lemma_step_object, link_encoding, metadata_at, metadata_encoding, path_hash, payload_at,
    spec_metadata_bytes, step_at, ObjectHeader, ObjectInfo, ObjectLocation, ObjectReader,
    ObjectState, Step, HASH_BYTES,
};
use crate::medium::{blank_from, shaped, Contents, Geometry};
use crate::model::{
    chain_data, contents_at, files, is_first_hit, is_hit, lemma_layout_order, lemma_layout_unique,
    lookup, matches_at, spec_max_hops,
};

verus! {

/// One data object of a file: where it is, which object of its block it
/// is, and the part of the contents that it holds.
pub struct ChunkRecord {
    pub at: ObjectLocation,
    pub index: int,
    pub bytes: Seq<u8>,
}

/// What a metadata object stands for: the object that holds the name, with
/// the name, and the data objects with their parts of the contents. A file
/// whose name object was deleted is no longer live: it is on its way out.
pub struct FileRecord {
    pub name_at: ObjectLocation,
    pub name_index: int,
    pub name: Seq<u8>,
    pub live: bool,
    pub chunks: Seq<ChunkRecord>,
}

/// The structure that a consistent medium has: the layout of its blocks,
/// the file that each finalized metadata object stands for, and the claims
/// that the files lay to the objects of the data blocks.
pub struct Model {
    pub layout: Seq<BlockLayout>,
    pub records: Map<ObjectLocation, FileRecord>,
    pub owner: Map<ObjectLocation, ObjectLocation>,
}

impl FileRecord {
    /// The link that the metadata object holds: to the first data object.
    pub open spec fn first_link(self) -> Option<ObjectLocation> {
        self.link(0)
    }

    /// The link to data object number `index`, if there is one.
    pub open spec fn link(self, index: int) -> Option<ObjectLocation> {
        if 0 <= index < self.chunks.len() {
            Some(self.chunks[index].at)
        } else {
            None
        }
    }

    /// The contents of the file from data object number `from` on.
    pub open spec fn contents_from(self, from: int) -> Seq<u8>
        decreases self.chunks.len() - from,
    {
        if 0 <= from < self.chunks.len() {
            self.chunks[from].bytes + self.contents_from(from + 1)
        } else {
            Seq::empty()
        }
    }

    /// The contents of the file.
    pub open spec fn contents(self) -> Seq<u8> {
        self.contents_from(0)
    }
}

/// Object number `index` of the block of `location` is an object of a block
/// of the given kind, and starts at `location`.
pub open spec fn holds(layout: Seq<BlockLayout>, kind: BlockType, location: ObjectLocation, index: int) -> bool {
    &&& location.block < layout.len()
    &&& layout[location.block as int].kind == kind
    &&& 0 <= index < layout[location.block as int].objects.len()
    &&& layout[location.block as int].objects[index].location == location
}

/// The header of object number `index` of the block of `location`.
pub open spec fn held(layout: Seq<BlockLayout>, location: ObjectLocation, index: int) -> ObjectHeader {
    layout[location.block as int].objects[index].header
}

/// Behind the last object of each block, the block is erased.
pub open spec fn free_blank(m: Contents, g: Geometry, layout: Seq<BlockLayout>) -> bool {
    forall|b: int|
        0 <= b < layout.len() ==> blank_from(m[b], end_of(g, (#[trigger] layout[b]).objects))
}

/// Every object that was finalized or deleted lies inside its block.
pub open spec fn closed(g: Geometry, layout: Seq<BlockLayout>) -> bool {
    forall|b: int, i: int|
        0 <= b < layout.len() && 0 <= i < layout[b].objects.len() && ((
        #[trigger] layout[b].objects[i]).header.state == ObjectState::Finalized
            || layout[b].objects[i].header.state == ObjectState::Deleted)
            ==> layout[b].objects[i].header.fits(g, layout[b].objects[i].location.offset as int)
}

/// Data object number `j` of the file is a finalized object of a data
/// block and holds the link to the next data object and its part of the
/// contents.
pub open spec fn chunk_held(
    m: Contents,
    g: Geometry,
    layout: Seq<BlockLayout>,
    r: FileRecord,
    j: int,
) -> bool {
    let c = r.chunks[j];
    &&& holds(layout, BlockType::Data, c.at, c.index)
    &&& held(layout, c.at, c.index).state == ObjectState::Finalized
    &&& held(layout, c.at, c.index).object_size == g.spec_object_location_bytes()
        + c.bytes.len()
    &&& payload_at(m, g, c.at, g.spec_object_location_bytes() + c.bytes.len()) == link_encoding(
        g,
        r.link(j + 1),
    ) + c.bytes
}

/// Data object number `j` of the file is where and what the file says, and
/// is claimed by the file.
pub open spec fn chunk_ok(
    m: Contents,
    g: Geometry,
    a: Model,
    meta: ObjectLocation,
    r: FileRecord,
    j: int,
) -> bool {
    &&& chunk_held(m, g, a.layout, r, j)
    &&& a.owner.dom().contains(r.chunks[j].at)
    &&& a.owner[r.chunks[j].at] == meta
}

/// The name object of the file is an object of a data block, finalized as
/// long as the file is live and deleted afterwards, and holds the name.
pub open spec fn name_held(m: Contents, g: Geometry, layout: Seq<BlockLayout>, r: FileRecord) -> bool {
    &&& holds(layout, BlockType::Data, r.name_at, r.name_index)
    &&& held(layout, r.name_at, r.name_index).state == (if r.live {
        ObjectState::Finalized
    } else {
        ObjectState::Deleted
    })
    &&& held(layout, r.name_at, r.name_index).object_size == r.name.len()
    &&& payload_at(m, g, r.name_at, r.name.len() as int) == r.name
}

/// The name object of the file is where and what the file says, and is
/// claimed by the file.
pub open spec fn name_ok(m: Contents, g: Geometry, a: Model, meta: ObjectLocation, r: FileRecord) -> bool {
    &&& name_held(m, g, a.layout, r)
    &&& a.owner.dom().contains(r.name_at)
    &&& a.owner[r.name_at] == meta
}

/// The metadata object `info` stands for the file `r`.
pub open spec fn record_ok(m: Contents, g: Geometry, a: Model, info: ObjectInfo, r: FileRecord) -> bool {
    &&& info.header.object_size == spec_metadata_bytes(g)
    &&& payload_at(m, g, info.location, spec_metadata_bytes(g)) == metadata_encoding(
        g,
        path_hash(r.name),
        r.name_at,
        r.first_link(),
    )
    &&& name_ok(m, g, a, info.location, r)
    &&& r.live ==> r.chunks.len() <= spec_max_hops(g) && forall|j: int|
        0 <= j < r.chunks.len() ==> #[trigger] chunk_ok(m, g, a, info.location, r, j)
    &&& r.live ==> apart(r)
}

/// No data object of the file is its name object, and no two of them are
/// the same object.
pub open spec fn apart(r: FileRecord) -> bool {
    &&& forall|j: int| 0 <= j < r.chunks.len() ==> (#[trigger] r.chunks[j]).at != r.name_at
    &&& forall|i: int, j: int|
        0 <= i < j < r.chunks.len() ==> (#[trigger] r.chunks[i]).at != (#[trigger] r.chunks[j]).at
}

/// Every finalized object of a metadata block stands for a file.
pub open spec fn entries_ok(m: Contents, g: Geometry, a: Model) -> bool {
    forall|b: int, i: int|
        0 <= b < a.layout.len() && 0 <= i < a.layout[b].objects.len() && a.layout[b].kind
            == BlockType::Metadata && (#[trigger] a.layout[b].objects[i]).header.state
            == ObjectState::Finalized ==> a.records.dom().contains(a.layout[b].objects[i].location)
            && record_ok(
            m,
            g,
            a,
            a.layout[b].objects[i],
            a.records[a.layout[b].objects[i].location],
        )
}

/// An object of a block of the given kind starts at `location`.
pub open spec fn placed(layout: Seq<BlockLayout>, kind: BlockType, location: ObjectLocation) -> bool {
    exists|index: int| holds(layout, kind, location, index)
}

/// Only objects of data blocks are claimed.
pub open spec fn claims_ok(a: Model) -> bool {
    forall|x: ObjectLocation| #[trigger]
        a.owner.dom().contains(x) ==> placed(a.layout, BlockType::Data, x)
}

/// The medium has the structure that `a` describes: a scan comes through
/// and finds the layout of `a`; free space is erased; and each finalized
/// metadata object stands for a file whose objects are where the object
/// says, hold what the file holds, and belong to no other file.
#[verifier::opaque]
pub open spec fn refines(m: Contents, g: Geometry, a: Model) -> bool {
    &&& g.valid()
    &&& shaped(m, g)
    &&& laid_out(m, g, a.layout)
    &&& free_blank(m, g, a.layout)
    &&& closed(g, a.layout)
    &&& entries_ok(m, g, a)
    &&& claims_ok(a)
}

/// What a consistent medium has besides its entries.
pub proof fn lemma_refines_facts(m: Contents, g: Geometry, a: Model)
    requires
        refines(m, g, a),
    ensures
        g.valid(),
        shaped(m, g),
        laid_out(m, g, a.layout),
        free_blank(m, g, a.layout),
        closed(g, a.layout),
        claims_ok(a),
        a.layout.len() == g.block_count,
{
    reveal(refines);
}

/// The medium is one that the engine has written, or could have: it has
/// the structure that the engine relies on.
pub open spec fn consistent(m: Contents, g: Geometry) -> bool {
    exists|a: Model| refines(m, g, a)
}

/// The medium holds the header of each object of its layout.
pub proof fn lemma_held_header(m: Contents, g: Geometry, layout: Seq<BlockLayout>, b: int, i: int)
    requires
        g.valid(),
        laid_out(m, g, layout),
        0 <= b < layout.len(),
        0 <= i < layout[b].objects.len(),
    ensures
        layout[b].objects[i].location.block == b,
        header_fits(g, layout[b].objects[i].location.offset as int),
        g.aligned(layout[b].objects[i].location.offset as int),
        HEADER_BYTES <= layout[b].objects[i].location.offset,
        header_at(m, g, layout[b].objects[i].location) == Ok::<ObjectHeader, StorageError>(
            layout[b].objects[i].header,
        ),
        layout[b].objects[i].header.state != ObjectState::Free,
        layout[b].objects[i].end(g) <= end_of(g, layout[b].objects) <= g.block_size,
        layout[b].objects[i].location.offset < layout[b].objects[i].end(g),
        layout[b].objects[i].header.fits(g, layout[b].objects[i].location.offset as int)
            ==> layout[b].objects[i].location.offset + layout[b].objects[i].spec_total_size(g)
            <= layout[b].objects[i].end(g),
{
    let info = layout[b].objects[i];
    lemma_layout_bounds(m, g, b, layout[b], i);
    lemma_layout_bounds(m, g, b, layout[b], layout[b].objects.len() as int);
    lemma_step_object(m, g, place_of(g, b, layout[b].objects, i), info);
    lemma_end_bounds(info, g);
    lemma_layout_order(m, g, b, layout[b], i, layout[b].objects.len() as int);
}

/// Object number `i` of block `b` is a finalized object of a metadata
/// block.
pub open spec fn is_entry(layout: Seq<BlockLayout>, b: int, i: int) -> bool {
    &&& 0 <= b < layout.len()
    &&& 0 <= i < layout[b].objects.len()
    &&& layout[b].kind == BlockType::Metadata
    &&& layout[b].objects[i].header.state == ObjectState::Finalized
}

/// A location of the layout names a byte of the medium.
pub proof fn lemma_held_addressable(
    m: Contents,
    g: Geometry,
    layout: Seq<BlockLayout>,
    kind: BlockType,
    location: ObjectLocation,
    index: int,
)
    requires
        g.valid(),
        laid_out(m, g, layout),
        holds(layout, kind, location, index),
    ensures
        location.addressable(g),
        header_at(m, g, location) == Ok::<ObjectHeader, StorageError>(held(layout, location, index)),
        header_fits(g, location.offset as int),
        g.aligned(location.offset as int),
{
    lemma_held_header(m, g, layout, location.block as int, index);
}

/// An object of the layout that is finalized and fits can be opened for
/// reading; one in any other state cannot.
pub proof fn lemma_held_reader(
    m: Contents,
    g: Geometry,
    layout: Seq<BlockLayout>,
    kind: BlockType,
    location: ObjectLocation,
    index: int,
)
    requires
        g.valid(),
        laid_out(m, g, layout),
        holds(layout, kind, location, index),
    ensures
        held(layout, location, index).state == ObjectState::Finalized && held(
            layout,
            location,
            index,
        ).fits(g, location.offset as int) ==> ObjectReader::spec_new(m, g, location) == Ok::<
            ObjectHeader,
            StorageError,
        >(held(layout, location, index)),
        held(layout, location, index).state != ObjectState::Finalized ==> ObjectReader::spec_new(
            m,
            g,
            location,
        ) == Err::<ObjectHeader, StorageError>(StorageError::InvalidState),
{
    lemma_held_addressable(m, g, layout, kind, location, index);
}

/// The metadata object of an entry reads as its record says: it holds the
/// hash of the name and the location of the name object, and for a live
/// file the link to the first data object.
pub proof fn lemma_entry_metadata(m: Contents, g: Geometry, a: Model, b: int, i: int)
    requires
        refines(m, g, a),
        is_entry(a.layout, b, i),
    ensures
        a.records.dom().contains(a.layout[b].objects[i].location),
        record_ok(
            m,
            g,
            a,
            a.layout[b].objects[i],
            a.records[a.layout[b].objects[i].location],
        ),
        metadata_at(m, g, a.layout[b].objects[i].location) matches Ok(meta) && meta.path_hash
            == path_hash(a.records[a.layout[b].objects[i].location].name)
            && meta.filename_location == a.records[a.layout[b].objects[i].location].name_at
            && meta.location == a.layout[b].objects[i].location && (a.records[a.layout[b].objects[i].location].live
            ==> meta.first_data == a.records[a.layout[b].objects[i].location].first_link()),
{
    reveal(refines);
    let info = a.layout[b].objects[i];
    let loc = info.location;
    let r = a.records[loc];
    let lb = g.spec_object_location_bytes();
    lemma_held_header(m, g, a.layout, b, i);
    assert(holds(a.layout, BlockType::Metadata, loc, i));
    lemma_held_reader(m, g, a.layout, BlockType::Metadata, loc, i);
    let payload = payload_at(m, g, loc, spec_metadata_bytes(g));
    let hash = path_hash(r.name);
    lemma_le_value_of_bytes(hash as int, HASH_BYTES as int);
    lemma_held_addressable(m, g, a.layout, BlockType::Data, r.name_at, r.name_index);
    r.name_at.lemma_from_bytes_encoding(g);
    assert(payload.subrange(0, HASH_BYTES as int) =~= le_bytes(hash as int, HASH_BYTES as int));
    assert(payload.subrange(HASH_BYTES as int, HASH_BYTES + lb) =~= r.name_at.encoding(g));
    if r.live {
        if r.chunks.len() > 0 {
            assert(chunk_ok(m, g, a, loc, r, 0));
            lemma_held_addressable(
                m,
                g,
                a.layout,
                BlockType::Data,
                r.chunks[0].at,
                r.chunks[0].index,
            );
        }
        lemma_parse_link_encoding(g, r.first_link());
        assert(payload.subrange(HASH_BYTES + lb, payload.len() as int) =~= link_encoding(
            g,
            r.first_link(),
        ));
    }
}

/// An object that is not finalized is no hit of a scan for any path: what
/// a writer began and did not complete, and what was deleted, is not found.
pub proof fn lemma_unfinished_not_found(
    m: Contents,
    g: Geometry,
    layout: Seq<BlockLayout>,
    path: Seq<u8>,
    b: int,
    i: int,
)
    requires
        g.valid(),
        laid_out(m, g, layout),
        0 <= b < layout.len(),
        0 <= i < layout[b].objects.len(),
        layout[b].objects[i].header.state != ObjectState::Finalized,
    ensures
        !is_hit(m, g, layout, path, b, i),
{
    reveal(matches_at);
    lemma_held_header(m, g, layout, b, i);
}

/// A scan for `path` stops at an object of a metadata block exactly where
/// the object is the entry of a live file of that name.
pub proof fn lemma_hit_iff(m: Contents, g: Geometry, a: Model, path: Seq<u8>, b: int, i: int)
    requires
        refines(m, g, a),
    ensures
        is_hit(m, g, a.layout, path, b, i) <==> is_entry(a.layout, b, i)
            && a.records[a.layout[b].objects[i].location].live
            && a.records[a.layout[b].objects[i].location].name == path,
{
    reveal(refines);
    reveal(matches_at);
    if 0 <= b < a.layout.len() && 0 <= i < a.layout[b].objects.len() && a.layout[b].kind
        == BlockType::Metadata {
        let info = a.layout[b].objects[i];
        let loc = info.location;
        lemma_held_header(m, g, a.layout, b, i);
        assert(holds(a.layout, BlockType::Metadata, loc, i));
        lemma_held_reader(m, g, a.layout, BlockType::Metadata, loc, i);
        if info.header.state == ObjectState::Finalized {
            let r = a.records[loc];
            lemma_entry_metadata(m, g, a, b, i);
            lemma_held_reader(m, g, a.layout, BlockType::Data, r.name_at, r.name_index);
            assert(held(a.layout, r.name_at, r.name_index) == a.layout[r.name_at.block as int].objects[r.name_index].header);
        }
    }
}

/// Following the links from data object number `from` of a live file
/// gives the contents of the file from that object on.
pub proof fn lemma_chain(
    m: Contents,
    g: Geometry,
    a: Model,
    meta: ObjectLocation,
    r: FileRecord,
    from: int,
    fuel: nat,
)
    requires
        g.valid(),
        laid_out(m, g, a.layout),
        closed(g, a.layout),
        forall|j: int| 0 <= j < r.chunks.len() ==> #[trigger] chunk_held(m, g, a.layout, r, j),
        0 <= from <= r.chunks.len(),
        fuel >= r.chunks.len() - from,
    ensures
        chain_data(m, g, r.link(from), fuel) == Some(r.contents_from(from)),
    decreases r.chunks.len() - from,
{
    if from < r.chunks.len() {
        let c = r.chunks[from];
        let lb = g.spec_object_location_bytes();
        assert(chunk_held(m, g, a.layout, r, from));
        lemma_held_reader(m, g, a.layout, BlockType::Data, c.at, c.index);
        assert(held(a.layout, c.at, c.index) == a.layout[c.at.block as int].objects[c.index].header);
        let size = lb + c.bytes.len();
        let payload = payload_at(m, g, c.at, size);
        assert(payload.subrange(0, lb) =~= link_encoding(g, r.link(from + 1)));
        assert(chunk_at(m, g, c.at, size) =~= c.bytes);
        if from + 1 < r.chunks.len() {
            assert(chunk_held(m, g, a.layout, r, from + 1));
            lemma_held_addressable(
                m,
                g,
                a.layout,
                BlockType::Data,
                r.chunks[from + 1].at,
                r.chunks[from + 1].index,
            );
        }
        lemma_parse_link_encoding(g, r.link(from + 1));
        lemma_chain(m, g, a, meta, r, from + 1, (fuel - 1) as nat);
    }
}

/// The contents of a live file are what its record holds.
pub proof fn lemma_entry_contents(m: Contents, g: Geometry, a: Model, b: int, i: int)
    requires
        refines(m, g, a),
        is_entry(a.layout, b, i),
        a.records[a.layout[b].objects[i].location].live,
    ensures
        contents_at(m, g, a.layout[b].objects[i].location) == Some(
            a.records[a.layout[b].objects[i].location].contents(),
        ),
{
    reveal(refines);
    let loc = a.layout[b].objects[i].location;
    let r = a.records[loc];
    lemma_entry_metadata(m, g, a, b, i);
    assert forall|j: int| 0 <= j < r.chunks.len() implies #[trigger] chunk_held(
        m,
        g,
        a.layout,
        r,
        j,
    ) by {
        assert(chunk_ok(m, g, a, loc, r, j));
    }
    lemma_chain(m, g, a, loc, r, 0, spec_max_hops(g) as nat);
}

/// Where the bytes of a header are all erased, a scan finds the end of the
/// used part of the block.
pub proof fn lemma_blank_step(m: Contents, g: Geometry, location: ObjectLocation)
    requires
        g.valid(),
        shaped(m, g),
        location.block < g.block_count,
        blank_from(m[location.block as int], location.offset as int),
    ensures
        step_at(m, g, location) == Step::End,
{
    reveal(crate::ll::objects::parse_header);
    crate::medium::lemma_align(g, 0);
    if header_fits(g, location.offset as int) {
        let block = m[location.block as int];
        let status = crate::ll::objects::status_field(block, g, location.offset as int);
        assert forall|i: int| 0 <= i < status.len() implies status[i] == 0xFFu8 by {
            assert(status[i] == block[location.offset + i]);
        }
        match g.granularity {
            crate::medium::WriteGranularity::Bit => {},
            crate::medium::WriteGranularity::Word(_) => {
                assert(status =~= ObjectState::Free.spec_words());
            },
        }
    }
}

/// The structure of a freshly formatted medium: the first blocks are empty
/// metadata blocks, the others undefined, and there are no files.
pub open spec fn fresh_model(g: Geometry, metadata_blocks: int) -> Model {
    Model {
        layout: Seq::new(
            g.block_count as nat,
            |b: int|
                BlockLayout {
                    kind: if b < metadata_blocks {
                        BlockType::Metadata
                    } else {
                        BlockType::Undefined
                    },
                    objects: Seq::empty(),
                },
        ),
        records: Map::empty(),
        owner: Map::empty(),
    }
}

/// A freshly formatted medium is consistent and holds no file.
pub proof fn lemma_formatted(g: Geometry, metadata_blocks: int)
    requires
        g.valid(),
        0 <= metadata_blocks <= g.block_count,
    ensures
        refines(formatted(g, metadata_blocks), g, fresh_model(g, metadata_blocks)),
        consistent(formatted(g, metadata_blocks), g),
        files(formatted(g, metadata_blocks), g) == Map::<Seq<u8>, Seq<u8>>::empty(),
{
    reveal(refines);
    let m = formatted(g, metadata_blocks);
    let a = fresh_model(g, metadata_blocks);
    crate::medium::lemma_align(g, 0);
    assert(shaped(m, g));
    assert forall|b: int| 0 <= b < a.layout.len() implies block_laid_out(
        m,
        g,
        b,
        #[trigger] a.layout[b],
    ) && blank_from(m[b], end_of(g, a.layout[b].objects)) by {
        let block = m[b];
        assert forall|i: int| HEADER_BYTES <= i < block.len() implies #[trigger] block[i]
            == 0xFFu8 by {}
        if b < metadata_blocks {
            let enc = BlockType::Metadata.encoding();
            assert forall|i: int| 0 <= i < 4 implies block[i] == enc[i] by {
                let e = enc[i];
                assert(0xFFu8 & e == e) by (bit_vector);
            }
            assert(block_header(m, b) =~= enc);
            BlockType::Metadata.lemma_parse_encoding();
            lemma_blank_step(m, g, ObjectLocation { block: b as usize, offset: HEADER_BYTES });
        } else {
            assert(block_header(m, b) =~= BlockType::Undefined.encoding());
            BlockType::Undefined.lemma_parse_encoding();
        }
    }
    assert(refines(m, g, a));
    lemma_layout_unique(m, g, a.layout);
    assert forall|path: Seq<u8>| lookup(m, g, path) is None by {
        assert forall|b: int, i: int| !is_first_hit(m, g, a.layout, path, b, i) by {}
    }
    assert(files(m, g) =~= Map::<Seq<u8>, Seq<u8>>::empty());
}

} // verus!
