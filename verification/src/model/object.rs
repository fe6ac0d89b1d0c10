//! Writing one object: what each step of it does to a consistent medium.

use vstd::prelude::*;

use crate::ll::blocks::{end_of, lemma_layout_bounds, place_of, BlockLayout, BlockType};
use crate::ll::objects::{
    header_fits, link_encoding, metadata_encoding, path_hash, payload_at, spec_metadata_bytes,
    ObjectHeader, ObjectInfo, ObjectLocation, ObjectState,
};
use crate::ll::writer::{closing_steps, rest_flushed, size_committed, state_set};
use crate::medium::{
    blank_from, lemma_align, lemma_align_shift, lemma_aligned_sum, lemma_same_outside_wider, shaped,
    Contents, Geometry,
};
use crate::model::{files, is_hit, scanned_before, spec_max_hops};
use crate::model::state::{
    chunk_held, consistent, holds, is_entry, lemma_held_header, lemma_refines_facts, name_held,
    refines, ChunkRecord, FileRecord, Model,
};
use crate::model::steps::{
    added_entry, claimed_by, completed, in_progress, is_closed, lemma_files_added, lemma_files_same,
    lemma_progress_flush, lemma_progress_size, lemma_progress_start, lemma_refines_entry,
    lemma_refines_tail, lemma_state_written, payload_start, preserves, same_entries, with_entry,
    with_last, with_tail,
};

verus! {

/// The object at `location` with the given state and size.
pub open spec fn object(location: ObjectLocation, state: ObjectState, size: int) -> ObjectInfo {
    ObjectInfo { location, header: ObjectHeader { state, object_size: size as usize } }
}

/// Object number `k`, the last of block `b`, is being written: it is
/// allocated, and its size is not committed.
pub open spec fn open_at(m: Contents, g: Geometry, a: Model, b: int, k: int, location: ObjectLocation) -> bool {
    &&& refines(m, g, a)
    &&& 0 <= b < g.block_count
    &&& location.block == b
    &&& a.layout[b].kind != BlockType::Undefined
    &&& 0 <= k == a.layout[b].objects.len() - 1
    &&& a.layout[b].objects[k].location == location
    &&& a.layout[b].objects[k].header.state == ObjectState::Allocated
    &&& !a.layout[b].objects[k].header.fits(g, location.offset as int)
    &&& g.aligned(location.offset as int)
}

/// Allocating an object behind the last object of a block keeps the medium
/// consistent and its files as they are, and starts the writing of the
/// object.
pub proof fn lemma_begin(m: Contents, g: Geometry, a: Model, b: int, k: int, location: ObjectLocation) -> (next:
    Model)
    requires
        refines(m, g, a),
        0 <= b < g.block_count,
        a.layout[b].kind != BlockType::Undefined,
        k == a.layout[b].objects.len(),
        location == place_of(g, b, a.layout[b].objects, k),
        header_fits(g, location.offset as int),
    ensures
        open_at(state_set(m, g, location, ObjectState::Allocated), g, next, b, k, location),
        in_progress(
            state_set(m, g, location, ObjectState::Allocated),
            g,
            location,
            Seq::<u8>::empty(),
            0,
        ),
        same_entries(a, next),
        next.records == a.records,
        next.owner == a.owner,
        preserves(m, state_set(m, g, location, ObjectState::Allocated), g, a.layout, next.layout),
        files(state_set(m, g, location, ObjectState::Allocated), g) == files(m, g),
        forall|x: int| 0 <= x < a.layout.len() ==> (#[trigger] next.layout[x]).kind
            == a.layout[x].kind,
        forall|x: int| 0 <= x < a.layout.len() && x != b ==> #[trigger] next.layout[x]
            == a.layout[x],
        next.layout.len() == a.layout.len(),
{
    reveal(refines);
    lemma_align(g, 0);
    let m2 = state_set(m, g, location, ObjectState::Allocated);
    lemma_layout_bounds(m, g, b, a.layout[b], k);
    assert(blank_from(m[b], end_of(g, a.layout[b].objects)));
    let header = lemma_progress_start(m, g, location);
    let info = ObjectInfo { location, header };
    lemma_same_outside_wider(
        m,
        m2,
        b,
        location.offset as int,
        location.offset + g.spec_object_status_bytes(),
        location.offset as int,
        g.block_size as int,
    );
    lemma_refines_tail(m, m2, g, a, b, k, info);
    let next = with_tail(a, b, k, info);
    lemma_files_same(m, m2, g, a, next);
    next
}

/// Committing the size of the object that is being written closes it, and
/// keeps the medium consistent and its files as they are.
pub proof fn lemma_finish_size(
    m: Contents,
    g: Geometry,
    a: Model,
    b: int,
    k: int,
    location: ObjectLocation,
    accepted: Seq<u8>,
    flushed: int,
) -> (next: Model)
    requires
        open_at(m, g, a, b, k, location),
        in_progress(m, g, location, accepted, flushed),
        g.aligned(flushed),
        accepted.len() - flushed < g.word(),
    ensures
        sized_at(
            size_committed(m, g, location, accepted.len() as int),
            g,
            next,
            b,
            k,
            location,
            accepted,
            flushed,
        ),
        same_entries(a, next),
        next.records == a.records,
        next.owner == a.owner,
        preserves(
            m,
            size_committed(m, g, location, accepted.len() as int),
            g,
            a.layout,
            next.layout,
        ),
        files(size_committed(m, g, location, accepted.len() as int), g) == files(m, g),
        next.layout.len() == a.layout.len(),
        forall|x: int| 0 <= x < a.layout.len() ==> (#[trigger] next.layout[x]).kind
            == a.layout[x].kind,
        forall|x: int| 0 <= x < a.layout.len() && x != b ==> #[trigger] next.layout[x]
            == a.layout[x],
{
    reveal(refines);
    lemma_align(g, 0);
    let size = accepted.len() as int;
    let m2 = size_committed(m, g, location, size);
    let start = payload_start(g, location);
    lemma_held_header(m, g, a.layout, b, k);
    lemma_layout_bounds(m, g, b, a.layout[b], k);
    let header = a.layout[b].objects[k].header;
    lemma_progress_size(m, g, location, accepted, flushed, header);
    let info = object(location, ObjectState::Allocated, size);
    lemma_same_outside_wider(
        m,
        m2,
        b,
        location.offset + g.spec_object_status_bytes(),
        start,
        location.offset as int,
        g.block_size as int,
    );
    lemma_object_end(g, location, ObjectState::Allocated, size);
    lemma_align(g, size);
    crate::medium::lemma_floor(g, size);
    assert(blank_from(m2[b], info.end(g))) by {
        assert forall|i: int| info.end(g) <= i < m2[b].len() implies #[trigger] m2[b][i]
            == 0xFFu8 by {}
    }
    lemma_refines_tail(m, m2, g, a, b, k, info);
    let next = with_tail(a, b, k, info);
    lemma_files_same(m, m2, g, a, next);
    next
}

/// An object that fits into its block ends behind its payload, on the next
/// write unit.
pub proof fn lemma_object_end(g: Geometry, location: ObjectLocation, state: ObjectState, size: int)
    requires
        g.valid(),
        g.aligned(location.offset as int),
        0 <= size,
        payload_start(g, location) + size <= g.block_size,
    ensures
        object(location, state, size).header.fits(g, location.offset as int),
        object(location, state, size).end(g) == payload_start(g, location) + g.spec_align(size),
        payload_start(g, location) + g.spec_align(size) <= g.block_size,
        object(location, state, size).header.object_size == size,
{
    reveal(ObjectInfo::end);
    lemma_align(g, 0);
    lemma_align(g, size);
    lemma_aligned_sum(g, location.offset as int, g.spec_object_header_bytes());
    lemma_align_shift(g, payload_start(g, location), size);
    lemma_aligned_sum(g, g.block_size as int, payload_start(g, location));
    crate::medium::lemma_round_bound(g, g.block_size - payload_start(g, location), size);
}

/// Object number `k`, the last of block `b`, has its size committed; the
/// payload bytes that were flushed are in place, and behind them the block
/// is erased.
pub open spec fn sized_at(
    m: Contents,
    g: Geometry,
    a: Model,
    b: int,
    k: int,
    location: ObjectLocation,
    accepted: Seq<u8>,
    flushed: int,
) -> bool {
    &&& refines(m, g, a)
    &&& 0 <= b < g.block_count
    &&& location.block == b
    &&& a.layout[b].kind != BlockType::Undefined
    &&& 0 <= k == a.layout[b].objects.len() - 1
    &&& a.layout[b].objects[k] == object(location, ObjectState::Allocated, accepted.len() as int)
    &&& g.aligned(location.offset as int)
    &&& header_fits(g, location.offset as int)
    &&& 0 <= flushed <= accepted.len()
    &&& g.aligned(flushed)
    &&& accepted.len() - flushed < g.word()
    &&& payload_start(g, location) + accepted.len() <= g.block_size
    &&& forall|i: int|
        0 <= i < flushed ==> m[b][payload_start(g, location) + i] == #[trigger] accepted[i]
    &&& blank_from(m[b], payload_start(g, location) + flushed)
}

/// Writing out what was staged completes the payload, and keeps the medium
/// consistent and its files as they are.
pub proof fn lemma_finish_flush(
    m: Contents,
    g: Geometry,
    a: Model,
    b: int,
    k: int,
    location: ObjectLocation,
    accepted: Seq<u8>,
    flushed: int,
)
    requires
        sized_at(m, g, a, b, k, location, accepted, flushed),
    ensures
        refines(
            rest_flushed(
                m,
                g,
                location,
                payload_start(g, location) + flushed,
                accepted.subrange(flushed, accepted.len() as int),
            ),
            g,
            a,
        ),
        completed(
            rest_flushed(
                m,
                g,
                location,
                payload_start(g, location) + flushed,
                accepted.subrange(flushed, accepted.len() as int),
            ),
            g,
            location,
            accepted,
        ),
        preserves(
            m,
            rest_flushed(
                m,
                g,
                location,
                payload_start(g, location) + flushed,
                accepted.subrange(flushed, accepted.len() as int),
            ),
            g,
            a.layout,
            a.layout,
        ),
        files(
            rest_flushed(
                m,
                g,
                location,
                payload_start(g, location) + flushed,
                accepted.subrange(flushed, accepted.len() as int),
            ),
            g,
        ) == files(m, g),
{
    reveal(refines);
    lemma_align(g, 0);
    let size = accepted.len() as int;
    let start = payload_start(g, location);
    let m2 = rest_flushed(m, g, location, start + flushed, accepted.subrange(flushed, size));
    let info = a.layout[b].objects[k];
    lemma_held_header(m, g, a.layout, b, k);
    lemma_layout_bounds(m, g, b, a.layout[b], k);
    lemma_progress_flush(m, g, location, accepted, flushed, info.header);
    lemma_object_end(g, location, ObjectState::Allocated, size);
    lemma_align(g, size);
    lemma_same_outside_wider(
        m,
        m2,
        b,
        start + flushed,
        start + g.spec_align(size),
        location.offset as int,
        g.block_size as int,
    );
    assert(shaped(m2, g)) by {
        assert forall|j: int| 0 <= j < m2.len() implies (#[trigger] m2[j]).len()
            == g.block_size by {
            assert(m[j].len() == m2[j].len());
        }
    }
    assert(blank_from(m2[b], info.end(g))) by {
        assert forall|i: int| info.end(g) <= i < m2[b].len() implies #[trigger] m2[b][i]
            == 0xFFu8 by {}
    }
    lemma_refines_tail(m, m2, g, a, b, k, info);
    let next = with_tail(a, b, k, info);
    assert(with_last(a.layout[b].objects, k, info) =~= a.layout[b].objects);
    assert(next.layout =~= a.layout);
    assert(next == a);
    lemma_files_same(m, m2, g, a, a);
}

/// Object number `k`, the last of block `b`, is complete but for its
/// state.
pub open spec fn complete_at(
    m: Contents,
    g: Geometry,
    a: Model,
    b: int,
    k: int,
    location: ObjectLocation,
    payload: Seq<u8>,
) -> bool {
    &&& refines(m, g, a)
    &&& 0 <= b < g.block_count
    &&& location.block == b
    &&& a.layout[b].kind != BlockType::Undefined
    &&& 0 <= k == a.layout[b].objects.len() - 1
    &&& a.layout[b].objects[k] == object(location, ObjectState::Allocated, payload.len() as int)
    &&& g.aligned(location.offset as int)
    &&& completed(m, g, location, payload)
}

/// Finalizing an object of a data block that is complete keeps the medium
/// consistent and its files as they are.
pub proof fn lemma_finish_data(
    m: Contents,
    g: Geometry,
    a: Model,
    b: int,
    k: int,
    location: ObjectLocation,
    payload: Seq<u8>,
) -> (next: Model)
    requires
        complete_at(m, g, a, b, k, location, payload),
        a.layout[b].kind == BlockType::Data,
    ensures
        refines(state_set(m, g, location, ObjectState::Finalized), g, next),
        same_entries(a, next),
        next.records == a.records,
        next.owner == a.owner,
        preserves(m, state_set(m, g, location, ObjectState::Finalized), g, a.layout, next.layout),
        files(state_set(m, g, location, ObjectState::Finalized), g) == files(m, g),
        next.layout.len() == a.layout.len(),
        forall|x: int| 0 <= x < a.layout.len() ==> (#[trigger] next.layout[x]).kind
            == a.layout[x].kind,
        forall|x: int| 0 <= x < a.layout.len() && x != b ==> #[trigger] next.layout[x]
            == a.layout[x],
        next.layout[b].objects.len() == k + 1,
        next.layout[b].objects[k] == object(location, ObjectState::Finalized, payload.len() as int),
        end_of(g, next.layout[b].objects) == payload_start(g, location) + g.spec_align(
            payload.len() as int,
        ),
        payload_at(
            state_set(m, g, location, ObjectState::Finalized),
            g,
            location,
            payload.len() as int,
        ) == payload,
{
    reveal(refines);
    lemma_align(g, 0);
    let size = payload.len() as int;
    let m2 = state_set(m, g, location, ObjectState::Finalized);
    let header = a.layout[b].objects[k].header;
    let info = object(location, ObjectState::Finalized, size);
    lemma_held_header(m, g, a.layout, b, k);
    lemma_layout_bounds(m, g, b, a.layout[b], k);
    lemma_state_written(m, g, location, header, ObjectState::Finalized);
    lemma_object_end(g, location, ObjectState::Finalized, size);
    lemma_align(g, size);
    assert(m2[b].len() == m[b].len());
    assert(payload_at(m2, g, location, size) =~= payload_at(m, g, location, size));
    lemma_same_outside_wider(
        m,
        m2,
        b,
        location.offset as int,
        location.offset + g.spec_object_status_bytes(),
        location.offset as int,
        g.block_size as int,
    );
    assert(blank_from(m2[b], info.end(g))) by {
        assert forall|i: int| info.end(g) <= i < m2[b].len() implies #[trigger] m2[b][i]
            == 0xFFu8 by {
            assert(m[b][i] == 0xFFu8);
        }
    }
    lemma_refines_tail(m, m2, g, a, b, k, info);
    let next = with_tail(a, b, k, info);
    lemma_files_same(m, m2, g, a, next);
    crate::model::steps::lemma_tail_layout(m, m2, g, a, b, k, info);
    crate::model::steps::lemma_layout_tail(m, m2, g, b, a.layout[b], k, info);
    next
}

/// Finalizing a metadata object that is complete makes it the entry of the
/// file that it points to. Under the path of that file a scan then finds
/// the file, unless it finds another of that name first; for any other path
/// it finds what it found.
pub proof fn lemma_finish_entry(
    m: Contents,
    g: Geometry,
    a: Model,
    b: int,
    k: int,
    location: ObjectLocation,
    payload: Seq<u8>,
    r: FileRecord,
) -> (next: Model)
    requires
        complete_at(m, g, a, b, k, location, payload),
        a.layout[b].kind == BlockType::Metadata,
        payload == metadata_encoding(g, path_hash(r.name), r.name_at, r.first_link()),
        payload.len() == spec_metadata_bytes(g),
        r.live,
        r.chunks.len() <= spec_max_hops(g),
        name_held(m, g, a.layout, r),
        forall|j: int| 0 <= j < r.chunks.len() ==> #[trigger] chunk_held(m, g, a.layout, r, j),
        crate::model::state::apart(r),
        forall|x: ObjectLocation| claimed_by(r, x) ==> !a.owner.dom().contains(x),
    ensures
        refines(state_set(m, g, location, ObjectState::Finalized), g, next),
        added_entry(a, next, b, k),
        next.records[location] == r,
        preserves(m, state_set(m, g, location, ObjectState::Finalized), g, a.layout, next.layout),
        files(state_set(m, g, location, ObjectState::Finalized), g) == files(m, g) || files(
            state_set(m, g, location, ObjectState::Finalized),
            g,
        ) == files(m, g).insert(r.name, r.contents()),
        (forall|b2: int, i: int|
            scanned_before(b2, i, b, k) ==> !#[trigger] is_hit(m, g, a.layout, r.name, b2, i))
            ==> files(state_set(m, g, location, ObjectState::Finalized), g) == files(m, g).insert(
            r.name,
            r.contents(),
        ),
        next.layout.len() == a.layout.len(),
        forall|x: int| 0 <= x < a.layout.len() ==> (#[trigger] next.layout[x]).kind
            == a.layout[x].kind,
        forall|x: int| 0 <= x < a.layout.len() && x != b ==> #[trigger] next.layout[x]
            == a.layout[x],
        next.layout[b].objects.len() == k + 1,
        next.layout[b].objects[k] == object(location, ObjectState::Finalized, payload.len() as int),
        end_of(g, next.layout[b].objects) == payload_start(g, location) + g.spec_align(
            payload.len() as int,
        ),
{
    reveal(refines);
    lemma_align(g, 0);
    let size = payload.len() as int;
    let m2 = state_set(m, g, location, ObjectState::Finalized);
    let header = a.layout[b].objects[k].header;
    let info = object(location, ObjectState::Finalized, size);
    lemma_held_header(m, g, a.layout, b, k);
    lemma_layout_bounds(m, g, b, a.layout[b], k);
    lemma_state_written(m, g, location, header, ObjectState::Finalized);
    lemma_object_end(g, location, ObjectState::Finalized, size);
    lemma_align(g, size);
    assert(m2[b].len() == m[b].len());
    assert(payload_at(m2, g, location, size) =~= payload_at(m, g, location, size));
    lemma_same_outside_wider(
        m,
        m2,
        b,
        location.offset as int,
        location.offset + g.spec_object_status_bytes(),
        location.offset as int,
        g.block_size as int,
    );
    assert(blank_from(m2[b], info.end(g))) by {
        assert forall|i: int| info.end(g) <= i < m2[b].len() implies #[trigger] m2[b][i]
            == 0xFFu8 by {
            assert(m[b][i] == 0xFFu8);
        }
    }
    lemma_refines_entry(m, m2, g, a, b, k, info, r);
    let next = with_entry(a, b, k, info, r);
    lemma_files_added(m, m2, g, a, next, b, k, r.name, r.contents());
    crate::model::steps::lemma_tail_layout(m, m2, g, a, b, k, info);
    crate::model::steps::lemma_layout_tail(m, m2, g, b, a.layout[b], k, info);
    next
}

/// What a record says of its name object and of its data objects stays
/// true where what was committed is preserved.
pub proof fn lemma_held_preserved(
    m: Contents,
    m2: Contents,
    g: Geometry,
    l: Seq<BlockLayout>,
    l2: Seq<BlockLayout>,
    r: FileRecord,
)
    requires
        preserves(m, m2, g, l, l2),
        name_held(m, g, l, r),
        r.live,
        forall|j: int| 0 <= j < r.chunks.len() ==> #[trigger] chunk_held(m, g, l, r, j),
    ensures
        name_held(m2, g, l2, r),
        forall|j: int| 0 <= j < r.chunks.len() ==> #[trigger] chunk_held(m2, g, l2, r, j),
{
    assert(is_closed(l[r.name_at.block as int].objects[r.name_index]));
    assert forall|j: int| 0 <= j < r.chunks.len() implies #[trigger] chunk_held(
        m2,
        g,
        l2,
        r,
        j,
    ) by {
        assert(chunk_held(m, g, l, r, j));
        let c = r.chunks[j];
        assert(is_closed(l[c.at.block as int].objects[c.index]));
    }
}

/// No file lays claim to a place behind the last object of a block.
pub proof fn lemma_vacant_unclaimed(
    m: Contents,
    g: Geometry,
    a: Model,
    location: ObjectLocation,
)
    requires
        refines(m, g, a),
        location.block < a.layout.len(),
        location.offset >= end_of(g, a.layout[location.block as int].objects),
    ensures
        !a.owner.dom().contains(location),
{
    reveal(refines);
    if a.owner.dom().contains(location) {
        assert(crate::model::state::placed(a.layout, BlockType::Data, location));
        let index = choose|index: int| holds(a.layout, BlockType::Data, location, index);
        lemma_held_header(m, g, a.layout, location.block as int, index);
    }
}

/// The file `r` can be entered: its name object and its data objects are
/// in place and belong to no file yet, and `payload` is what the metadata
/// object of the file holds.
pub open spec fn enterable(m: Contents, g: Geometry, a: Model, r: FileRecord, payload: Seq<u8>) -> bool {
    &&& payload == metadata_encoding(g, path_hash(r.name), r.name_at, r.first_link())
    &&& payload.len() == spec_metadata_bytes(g)
    &&& r.live
    &&& r.chunks.len() <= spec_max_hops(g)
    &&& name_held(m, g, a.layout, r)
    &&& forall|j: int| 0 <= j < r.chunks.len() ==> #[trigger] chunk_held(m, g, a.layout, r, j)
    &&& crate::model::state::apart(r)
    &&& forall|x: ObjectLocation| claimed_by(r, x) ==> !a.owner.dom().contains(x)
}

/// What holds for a file that can be entered still holds where what was
/// committed is preserved and no claims were laid.
pub proof fn lemma_enterable_kept(
    m: Contents,
    m2: Contents,
    g: Geometry,
    a: Model,
    a2: Model,
    r: FileRecord,
    payload: Seq<u8>,
)
    requires
        enterable(m, g, a, r, payload),
        preserves(m, m2, g, a.layout, a2.layout),
        a2.owner == a.owner,
    ensures
        enterable(m2, g, a2, r, payload),
{
    lemma_held_preserved(m, m2, g, a.layout, a2.layout, r);
}

/// The files after an object was written: as before, or with the file
/// that was entered.
pub open spec fn files_with(
    before: Map<Seq<u8>, Seq<u8>>,
    entry: Option<FileRecord>,
) -> Map<Seq<u8>, Seq<u8>> {
    match entry {
        Some(r) => before.insert(r.name, r.contents()),
        None => before,
    }
}

/// The object at `location` is object number `k`, the last of its block,
/// finalized, with `payload` as its payload. Where `entry` is a file, the
/// object is its metadata object and became its entry.
pub open spec fn finished(
    m: Contents,
    m2: Contents,
    g: Geometry,
    a: Model,
    a2: Model,
    kind: BlockType,
    location: ObjectLocation,
    k: int,
    payload: Seq<u8>,
    entry: Option<FileRecord>,
) -> bool {
    let b = location.block as int;
    &&& refines(m2, g, a2)
    &&& preserves(m, m2, g, a.layout, a2.layout)
    &&& holds(a2.layout, kind, location, k)
    &&& payload.len() <= g.block_size
    &&& a2.layout.len() == a.layout.len()
    &&& a2.layout[b].objects.len() == k + 1
    &&& a2.layout[b].objects[k] == object(location, ObjectState::Finalized, payload.len() as int)
    &&& end_of(g, a2.layout[b].objects) == payload_start(g, location) + g.spec_align(
        payload.len() as int,
    )
    &&& forall|x: int| 0 <= x < a.layout.len() ==> (#[trigger] a2.layout[x]).kind == a.layout[x].kind
    &&& forall|x: int| 0 <= x < a.layout.len() && x != b ==> #[trigger] a2.layout[x] == a.layout[x]
    &&& payload_at(m2, g, location, payload.len() as int) == payload
    &&& match entry {
        None => same_entries(a, a2) && a2.records == a.records && a2.owner == a.owner && files(
            m2,
            g,
        ) == files(m, g),
        Some(r) => added_entry(a, a2, b, k) && a2.records[location] == r && (files(m2, g) == files(
            m,
            g,
        ) || files(m2, g) == files(m, g).insert(r.name, r.contents())) && ((forall|
            b2: int,
            i: int,
        |
            scanned_before(b2, i, b, k) ==> !#[trigger] is_hit(m, g, a.layout, r.name, b2, i))
            ==> files(m2, g) == files(m, g).insert(r.name, r.contents())),
    }
}

/// The steps of closing the object leave the medium consistent: until the
/// last, with the entries and the files that it had; after the last, with
/// the object finished.
pub open spec fn closing(
    m: Contents,
    g: Geometry,
    a: Model,
    mid: Model,
    last: Model,
    steps: Seq<Contents>,
    kind: BlockType,
    location: ObjectLocation,
    k: int,
    payload: Seq<u8>,
    entry: Option<FileRecord>,
) -> bool {
    &&& 2 <= steps.len() <= 3
    &&& forall|j: int|
        0 <= j < steps.len() - 1 ==> refines(#[trigger] steps[j], g, mid) && files(steps[j], g)
            == files(m, g) && preserves(m, steps[j], g, a.layout, mid.layout)
    &&& same_entries(a, mid)
    &&& mid.records == a.records
    &&& mid.owner == a.owner
    &&& mid.layout.len() == a.layout.len()
    &&& forall|x: int| 0 <= x < a.layout.len() ==> (#[trigger] mid.layout[x]).kind == a.layout[x].kind
    &&& forall|x: int|
        0 <= x < a.layout.len() && x != location.block ==> #[trigger] mid.layout[x] == a.layout[x]
    &&& finished(m, steps[steps.len() - 1], g, a, last, kind, location, k, payload, entry)
}

/// Closing the object that is being written, step by step.
pub proof fn lemma_closing(
    m: Contents,
    g: Geometry,
    a: Model,
    kind: BlockType,
    location: ObjectLocation,
    k: int,
    accepted: Seq<u8>,
    flushed: int,
    entry: Option<FileRecord>,
) -> (models: (Model, Model))
    requires
        open_at(m, g, a, location.block as int, k, location),
        a.layout[location.block as int].kind == kind,
        in_progress(m, g, location, accepted, flushed),
        g.aligned(flushed),
        accepted.len() - flushed < g.word(),
        match entry {
            Some(r) => kind == BlockType::Metadata && enterable(m, g, a, r, accepted),
            None => kind == BlockType::Data,
        },
    ensures
        closing(
            m,
            g,
            a,
            models.0,
            models.1,
            closing_steps(
                m,
                g,
                location,
                true,
                accepted.len() as int,
                payload_start(g, location) + flushed,
                accepted.subrange(flushed, accepted.len() as int),
                ObjectState::Finalized,
            ),
            kind,
            location,
            k,
            accepted,
            entry,
        ),
{
    reveal(refines);
    lemma_align(g, 0);
    let b = location.block as int;
    let start = payload_start(g, location);
    let pending = accepted.subrange(flushed, accepted.len() as int);
    let s1 = size_committed(m, g, location, accepted.len() as int);
    let s2 = rest_flushed(s1, g, location, start + flushed, pending);
    let s3 = state_set(s2, g, location, ObjectState::Finalized);
    let steps = closing_steps(
        m,
        g,
        location,
        true,
        accepted.len() as int,
        start + flushed,
        pending,
        ObjectState::Finalized,
    );
    let a1 = lemma_finish_size(m, g, a, b, k, location, accepted, flushed);
    lemma_finish_flush(s1, g, a1, b, k, location, accepted, flushed);
    crate::model::steps::lemma_preserves_twice(m, s1, s2, g, a.layout, a1.layout, a1.layout);
    let a3 = match entry {
        Some(r) => {
            lemma_enterable_kept(m, s2, g, a, a1, r, accepted);
            lemma_finish_entry(s2, g, a1, b, k, location, accepted, r)
        },
        None => lemma_finish_data(s2, g, a1, b, k, location, accepted),
    };
    crate::model::steps::lemma_preserves_twice(m, s2, s3, g, a.layout, a1.layout, a3.layout);
    assert(steps[steps.len() - 1] == s3);
    assert forall|j: int| 0 <= j < steps.len() - 1 implies refines(#[trigger] steps[j], g, a1)
        && files(steps[j], g) == files(m, g) && preserves(m, steps[j], g, a.layout, a1.layout) by {
        if j == 0 {
            assert(steps[0] == s1);
        } else {
            assert(steps[1] == s2);
        }
    }
    match entry {
        None => {
            assert(same_entries(a, a3)) by {
                assert forall|b2: int, i: int| #[trigger] is_entry(a3.layout, b2, i) implies is_entry(
                    a.layout,
                    b2,
                    i,
                ) && a3.layout[b2].objects[i] == a.layout[b2].objects[i]
                    && a3.records[a3.layout[b2].objects[i].location]
                    == a.records[a.layout[b2].objects[i].location] by {
                    assert(is_entry(a1.layout, b2, i));
                }
                assert forall|b2: int, i: int| #[trigger] is_entry(a.layout, b2, i) implies is_entry(
                    a3.layout,
                    b2,
                    i,
                ) by {
                    assert(is_entry(a1.layout, b2, i));
                }
            }
        },
        Some(r) => {
            assert(added_entry(a, a3, b, k)) by {
                if is_entry(a.layout, b, k) {
                    assert(is_entry(a1.layout, b, k));
                }
                assert forall|b2: int, i: int| #[trigger]
                    is_entry(a3.layout, b2, i) && !(b2 == b && i == k) implies is_entry(
                    a.layout,
                    b2,
                    i,
                ) && a3.layout[b2].objects[i] == a.layout[b2].objects[i]
                    && a3.records[a3.layout[b2].objects[i].location]
                    == a.records[a.layout[b2].objects[i].location] by {
                    assert(is_entry(a1.layout, b2, i));
                }
                assert forall|b2: int, i: int| #[trigger] is_entry(a.layout, b2, i) implies is_entry(
                    a3.layout,
                    b2,
                    i,
                ) by {
                    assert(is_entry(a1.layout, b2, i));
                }
            }
            if forall|b2: int, i: int|
                scanned_before(b2, i, b, k) ==> !#[trigger] is_hit(m, g, a.layout, r.name, b2, i) {
                assert forall|b2: int, i: int| scanned_before(b2, i, b, k) implies !#[trigger] is_hit(
                    s2,
                    g,
                    a1.layout,
                    r.name,
                    b2,
                    i,
                ) by {
                    crate::model::state::lemma_hit_iff(m, g, a, r.name, b2, i);
                    crate::model::state::lemma_hit_iff(s2, g, a1, r.name, b2, i);
                    if is_entry(a1.layout, b2, i) {
                        assert(is_entry(a.layout, b2, i));
                    }
                    assert(!is_hit(m, g, a.layout, r.name, b2, i));
                }
            }
        },
    }
    (a1, a3)
}

/// The object at `location` was written, with `payload` as its payload,
/// and finalized. Where `entry` is a file, the object is its metadata object
/// and became its entry.
pub open spec fn stored(
    m: Contents,
    m2: Contents,
    g: Geometry,
    a: Model,
    a2: Model,
    kind: BlockType,
    location: ObjectLocation,
    k: int,
    payload: Seq<u8>,
    entry: Option<FileRecord>,
) -> bool {
    let b = location.block as int;
    &&& refines(m2, g, a2)
    &&& preserves(m, m2, g, a.layout, a2.layout)
    &&& holds(a2.layout, kind, location, k)
    &&& k >= a.layout[b].objects.len()
    &&& payload.len() <= g.block_size
    &&& a2.layout[b].objects[k] == object(location, ObjectState::Finalized, payload.len() as int)
    &&& payload_at(m2, g, location, payload.len() as int) == payload
    &&& match entry {
        None => same_entries(a, a2) && a2.records == a.records && a2.owner == a.owner && files(
            m2,
            g,
        ) == files(m, g),
        Some(r) => added_entry(a, a2, b, k) && a2.records[location] == r && (files(m2, g) == files(
            m,
            g,
        ) || files(m2, g) == files(m, g).insert(r.name, r.contents())) && ((forall|
            b2: int,
            i: int,
        |
            scanned_before(b2, i, b, k) ==> !#[trigger] is_hit(m, g, a.layout, r.name, b2, i))
            ==> files(m2, g) == files(m, g).insert(r.name, r.contents())),
    }
}

/// An object that was finished after quiet steps was stored since before
/// them.
pub proof fn lemma_stored_after_quiet(
    m0: Contents,
    m1: Contents,
    m2: Contents,
    g: Geometry,
    a0: Model,
    a1: Model,
    a2: Model,
    kind: BlockType,
    location: ObjectLocation,
    k: int,
    payload: Seq<u8>,
    entry: Option<FileRecord>,
)
    requires
        refines(m0, g, a0),
        refines(m1, g, a1),
        same_entries(a0, a1),
        a1.records == a0.records,
        a1.owner == a0.owner,
        preserves(m0, m1, g, a0.layout, a1.layout),
        files(m1, g) == files(m0, g),
        finished(m1, m2, g, a1, a2, kind, location, k, payload, entry),
        k >= a0.layout[location.block as int].objects.len(),
    ensures
        stored(m0, m2, g, a0, a2, kind, location, k, payload, entry),
{
    reveal(refines);
    let b = location.block as int;
    crate::model::steps::lemma_preserves_twice(m0, m1, m2, g, a0.layout, a1.layout, a2.layout);
    match entry {
        None => {
            assert(same_entries(a0, a2)) by {
                assert forall|b2: int, i: int| #[trigger] is_entry(a2.layout, b2, i) implies is_entry(
                    a0.layout,
                    b2,
                    i,
                ) && a2.layout[b2].objects[i] == a0.layout[b2].objects[i]
                    && a2.records[a2.layout[b2].objects[i].location]
                    == a0.records[a0.layout[b2].objects[i].location] by {
                    assert(is_entry(a1.layout, b2, i));
                }
                assert forall|b2: int, i: int| #[trigger] is_entry(a0.layout, b2, i) implies is_entry(
                    a2.layout,
                    b2,
                    i,
                ) by {
                    assert(is_entry(a1.layout, b2, i));
                }
            }
        },
        Some(r) => {
            assert(added_entry(a0, a2, b, k)) by {
                if is_entry(a0.layout, b, k) {
                    assert(is_entry(a1.layout, b, k));
                }
                assert forall|b2: int, i: int| #[trigger]
                    is_entry(a2.layout, b2, i) && !(b2 == b && i == k) implies is_entry(
                    a0.layout,
                    b2,
                    i,
                ) && a2.layout[b2].objects[i] == a0.layout[b2].objects[i]
                    && a2.records[a2.layout[b2].objects[i].location]
                    == a0.records[a0.layout[b2].objects[i].location] by {
                    assert(is_entry(a1.layout, b2, i));
                }
                assert forall|b2: int, i: int| #[trigger] is_entry(a0.layout, b2, i) implies is_entry(
                    a2.layout,
                    b2,
                    i,
                ) by {
                    assert(is_entry(a1.layout, b2, i));
                }
            }
            if forall|b2: int, i: int|
                scanned_before(b2, i, b, k) ==> !#[trigger] is_hit(
                    m0,
                    g,
                    a0.layout,
                    r.name,
                    b2,
                    i,
                ) {
                assert forall|b2: int, i: int| scanned_before(b2, i, b, k) implies !#[trigger] is_hit(
                    m1,
                    g,
                    a1.layout,
                    r.name,
                    b2,
                    i,
                ) by {
                    crate::model::state::lemma_hit_iff(m0, g, a0, r.name, b2, i);
                    crate::model::state::lemma_hit_iff(m1, g, a1, r.name, b2, i);
                    if is_entry(a1.layout, b2, i) {
                        assert(is_entry(a0.layout, b2, i));
                    }
                    assert(!is_hit(m0, g, a0.layout, r.name, b2, i));
                }
            }
        },
    }
}

/// The objects of the file `r` are in place, as far as they were written,
/// and belong to no file yet.
pub open spec fn pending(m: Contents, g: Geometry, a: Model, r: FileRecord) -> bool {
    &&& r.live
    &&& name_held(m, g, a.layout, r)
    &&& forall|j: int| 0 <= j < r.chunks.len() ==> #[trigger] chunk_held(m, g, a.layout, r, j)
    &&& crate::model::state::apart(r)
    &&& forall|x: ObjectLocation| claimed_by(r, x) ==> !a.owner.dom().contains(x)
}

/// The file `r` with one more data object in front of those it has.
pub open spec fn with_chunk(r: FileRecord, at: ObjectLocation, index: int, bytes: Seq<u8>) -> FileRecord {
    FileRecord {
        name_at: r.name_at,
        name_index: r.name_index,
        name: r.name,
        live: r.live,
        chunks: seq![ChunkRecord { at, index, bytes }] + r.chunks,
    }
}

/// The name object of a file was written: the file, without contents yet,
/// is pending.
pub proof fn lemma_pending_name(
    m: Contents,
    m2: Contents,
    g: Geometry,
    a: Model,
    a2: Model,
    location: ObjectLocation,
    k: int,
    name: Seq<u8>,
) -> (r: FileRecord)
    requires
        stored(m, m2, g, a, a2, BlockType::Data, location, k, name, None),
        !a.owner.dom().contains(location),
    ensures
        pending(m2, g, a2, r),
        r.name == name,
        r.name_at == location,
        r.chunks.len() == 0,
        r.contents() == Seq::<u8>::empty(),
        r.first_link() == None::<ObjectLocation>,
{
    let r = FileRecord {
        name_at: location,
        name_index: k,
        name,
        live: true,
        chunks: Seq::empty(),
    };
    assert forall|x: ObjectLocation| claimed_by(r, x) implies !a2.owner.dom().contains(x) by {}
    r
}

/// One more data object of a pending file was written, in front of those
/// that were written before.
pub proof fn lemma_pending_chunk(
    m: Contents,
    m2: Contents,
    g: Geometry,
    a: Model,
    a2: Model,
    r: FileRecord,
    location: ObjectLocation,
    k: int,
    bytes: Seq<u8>,
) -> (more: FileRecord)
    requires
        g.valid(),
        pending(m, g, a, r),
        stored(
            m,
            m2,
            g,
            a,
            a2,
            BlockType::Data,
            location,
            k,
            link_encoding(g, r.first_link()) + bytes,
            None,
        ),
        !a.owner.dom().contains(location),
        link_encoding(g, r.first_link()).len() == g.spec_object_location_bytes(),
    ensures
        more == with_chunk(r, location, k, bytes),
        pending(m2, g, a2, more),
        more.contents() == bytes + r.contents(),
        more.first_link() == Some(location),
        more.name == r.name,
        more.name_at == r.name_at,
        more.chunks.len() == r.chunks.len() + 1,
{
    let more = with_chunk(r, location, k, bytes);
    lemma_held_preserved(m, m2, g, a.layout, a2.layout, r);
    lemma_refines_facts(m2, g, a2);
    assert(location != r.name_at) by {
        if location == r.name_at {
            crate::model::remove::lemma_same_place(
                m2,
                g,
                a2.layout,
                location.block as int,
                k,
                r.name_index,
            );
        }
    }
    assert forall|j: int| 0 <= j < more.chunks.len() implies #[trigger] chunk_held(
        m2,
        g,
        a2.layout,
        more,
        j,
    ) by {
        if j == 0 {
            assert(more.link(1) == r.first_link());
        } else {
            assert(chunk_held(m2, g, a2.layout, r, j - 1));
            assert(more.chunks[j] == r.chunks[j - 1]);
            assert(more.link(j + 1) == r.link(j));
        }
    }
    assert(crate::model::state::apart(more)) by {
        assert forall|j: int| 0 <= j < more.chunks.len() implies (#[trigger] more.chunks[j]).at
            != more.name_at by {
            if j > 0 {
                assert(more.chunks[j] == r.chunks[j - 1]);
            }
        }
        assert forall|i: int, j: int| 0 <= i < j < more.chunks.len() implies (
        #[trigger] more.chunks[i]).at != (#[trigger] more.chunks[j]).at by {
            assert(more.chunks[j] == r.chunks[j - 1]);
            if i > 0 {
                assert(more.chunks[i] == r.chunks[i - 1]);
            } else {
                let c = r.chunks[j - 1];
                assert(chunk_held(m, g, a.layout, r, j - 1));
                assert(chunk_held(m2, g, a2.layout, r, j - 1));
                if c.at == location {
                    crate::model::remove::lemma_same_place(
                        m2,
                        g,
                        a2.layout,
                        location.block as int,
                        k,
                        c.index,
                    );
                }
            }
        }
    }
    assert forall|x: ObjectLocation| claimed_by(more, x) implies !a2.owner.dom().contains(x) by {
        if x != more.name_at {
            let j = choose|j: int| 0 <= j < more.chunks.len() && (#[trigger] more.chunks[j]).at == x;
            if j > 0 {
                assert(r.chunks[j - 1].at == x);
                assert(claimed_by(r, x));
            }
        } else {
            assert(claimed_by(r, x));
        }
    }
    lemma_contents_shift(r, more, 0);
    assert(more.contents_from(1) == r.contents_from(0));
    more
}

/// The contents of a file with one more data object in front, from the
/// second data object on, are the contents of the file without it.
pub proof fn lemma_contents_shift(r: FileRecord, more: FileRecord, from: int)
    requires
        more.chunks.len() == r.chunks.len() + 1,
        forall|j: int| 0 <= j < r.chunks.len() ==> more.chunks[j + 1] == #[trigger] r.chunks[j],
        0 <= from <= r.chunks.len(),
    ensures
        more.contents_from(from + 1) == r.contents_from(from),
    decreases r.chunks.len() - from,
{
    if from < r.chunks.len() {
        lemma_contents_shift(r, more, from + 1);
        assert(more.chunks[from + 1] == r.chunks[from]);
    }
}

} // verus!
