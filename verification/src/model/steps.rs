//! What single writes do to the structure of a consistent medium.

use vstd::prelude::*;

use crate::StorageError;
use crate::ll::blocks::{
    block_header, block_laid_out, end_of, laid_out, lemma_layout_bounds, place_of, start_of,
    BlockLayout, BlockType, HEADER_BYTES,
};
use crate::ll::bytes::{all_ones, le_bytes, lemma_le_value_all_ones, lemma_le_value_of_bytes};
use crate::ll::objects::{
    header_at, header_fits, lemma_end_bounds, lemma_step_object, metadata_encoding, padded,
    parse_header, path_hash, payload_at, size_encoding, size_field, spec_metadata_bytes,
    status_field, step_at, ObjectHeader, ObjectInfo, ObjectLocation, ObjectState, Step,
};
use crate::ll::writer::{rest_flushed, size_committed, state_set};
use crate::medium::{
    blank_from, lemma_align, lemma_aligned_sum, programmed, same_outside, shaped, written, Contents,
    Geometry, WriteGranularity,
};
use crate::model::{
    contents_at, files, is_first_hit, is_hit, layout_of, lemma_first_hit_exists,
    lemma_first_hit_unique, lemma_layout_order, lemma_layout_unique, lookup, lookup_in,
    scanned_before, spec_max_hops,
};
use crate::model::state::{
    chunk_held, chunk_ok, claims_ok, closed, consistent, entries_ok, free_blank, held, holds,
    is_entry, lemma_blank_step, lemma_entry_contents, lemma_held_header, lemma_hit_iff, name_held,
    name_ok, placed, record_ok, refines, FileRecord, Model,
};

verus! {

/// What lies outside the bytes that a write has touched reads as before:
/// the header of an object and its payload.
pub proof fn lemma_frame(
    m: Contents,
    m2: Contents,
    g: Geometry,
    block: int,
    lo: int,
    hi: int,
    location: ObjectLocation,
    size: int,
)
    requires
        g.valid(),
        shaped(m, g),
        same_outside(m, m2, block, lo, hi),
        location.block < g.block_count,
        header_fits(g, location.offset as int),
        0 <= size,
        location.offset + g.spec_object_header_bytes() + size <= g.block_size,
        location.block != block || location.offset + g.spec_object_header_bytes() + size <= lo
            || hi <= location.offset,
    ensures
        shaped(m2, g),
        header_at(m2, g, location) == header_at(m, g, location),
        payload_at(m2, g, location, size) == payload_at(m, g, location, size),
{
    reveal(parse_header);
    lemma_align(g, 0);
    let b = location.block as int;
    let o = location.offset as int;
    assert(m[b].len() == m2[b].len());
    assert(status_field(m2[b], g, o) =~= status_field(m[b], g, o));
    assert(size_field(m2[b], g, o) =~= size_field(m[b], g, o));
    assert(payload_at(m2, g, location, size) =~= payload_at(m, g, location, size));
    assert forall|k: int| 0 <= k < m2.len() implies (#[trigger] m2[k]).len() == g.block_size by {
        assert(m[k].len() == m2[k].len());
    }
}

/// Where the header bytes at a place were not touched, a scan finds there
/// what it found before.
pub proof fn lemma_step_frame(
    m: Contents,
    m2: Contents,
    g: Geometry,
    block: int,
    lo: int,
    hi: int,
    location: ObjectLocation,
)
    requires
        g.valid(),
        shaped(m, g),
        same_outside(m, m2, block, lo, hi),
        location.block < g.block_count,
        location.block != block || !header_fits(g, location.offset as int) || location.offset
            + g.spec_object_header_bytes() <= lo || hi <= location.offset,
    ensures
        step_at(m2, g, location) == step_at(m, g, location),
{
    if header_fits(g, location.offset as int) {
        lemma_frame(m, m2, g, block, lo, hi, location, 0);
    }
}

/// Programming a state over the state that comes before it in the life of
/// an object changes the state and nothing else.
pub proof fn lemma_state_written(
    m: Contents,
    g: Geometry,
    location: ObjectLocation,
    header: ObjectHeader,
    next: ObjectState,
)
    requires
        g.valid(),
        shaped(m, g),
        header_at(m, g, location) == Ok::<ObjectHeader, StorageError>(header),
        header.state.may_become(next),
    ensures
        header_at(state_set(m, g, location, next), g, location) == Ok::<ObjectHeader, StorageError>(
            ObjectHeader { state: next, object_size: header.object_size },
        ),
        same_outside(
            m,
            state_set(m, g, location, next),
            location.block as int,
            location.offset as int,
            location.offset + g.spec_object_status_bytes(),
        ),
        shaped(state_set(m, g, location, next), g),
{
    reveal(parse_header);
    lemma_align(g, 0);
    let b = location.block as int;
    let o = location.offset as int;
    let m2 = state_set(m, g, location, next);
    let enc = next.encoding(g.granularity);
    let was = status_field(m[b], g, o);
    header.state.lemma_decode_encoding(g.granularity);
    next.lemma_decode_encoding(g.granularity);
    header.state.lemma_step_clears_bits(next, g.granularity);
    ObjectState::lemma_words_differ();
    assert(was == header.state.encoding(g.granularity)) by {
        match g.granularity {
            WriteGranularity::Bit => {
                assert(was =~= seq![was[0]]);
            },
            WriteGranularity::Word(_) => {},
        }
    }
    assert(status_field(m2[b], g, o) =~= enc) by {
        assert forall|i: int| 0 <= i < enc.len() implies status_field(m2[b], g, o)[i]
            == enc[i] by {
            assert(m2[b][o + i] == m[b][o + i] & enc[i]);
            assert(was[i] == m[b][o + i]);
        }
    }
    assert(size_field(m2[b], g, o) =~= size_field(m[b], g, o));
    assert forall|k: int| 0 <= k < m2.len() implies (#[trigger] m2[k]).len() == g.block_size by {
        assert(m[k].len() == g.block_size);
    }
}

/// Committing a size to a size field that is still erased sets the size
/// and changes nothing else.
pub proof fn lemma_size_written(
    m: Contents,
    g: Geometry,
    location: ObjectLocation,
    header: ObjectHeader,
    size: int,
)
    requires
        g.valid(),
        shaped(m, g),
        header_at(m, g, location) == Ok::<ObjectHeader, StorageError>(header),
        all_ones(size_field(m[location.block as int], g, location.offset as int)),
        0 <= size <= g.block_size,
    ensures
        header_at(size_committed(m, g, location, size), g, location) == Ok::<
            ObjectHeader,
            StorageError,
        >(ObjectHeader { state: header.state, object_size: size as usize }),
        same_outside(
            m,
            size_committed(m, g, location, size),
            location.block as int,
            location.offset + g.spec_object_status_bytes(),
            location.offset + g.spec_object_header_bytes(),
        ),
        shaped(size_committed(m, g, location, size), g),
{
    reveal(parse_header);
    lemma_align(g, 0);
    lemma_align(g, g.spec_object_size_bytes());
    let b = location.block as int;
    let o = location.offset as int;
    let sb = g.spec_object_size_bytes();
    let at = o + g.spec_object_status_bytes();
    let m2 = size_committed(m, g, location, size);
    let digits = le_bytes(size, sb);
    let enc = size_encoding(g, size);
    assert(enc.len() == g.spec_align(sb));
    lemma_le_value_of_bytes(size, sb);
    assert(size_field(m2[b], g, o) =~= digits) by {
        assert forall|i: int| 0 <= i < sb implies size_field(m2[b], g, o)[i] == digits[i] by {
            let d = enc[i];
            assert(enc[i] == digits[i]);
            assert(size_field(m[b], g, o)[i] == 0xFFu8);
            assert(m[b][at + i] == 0xFFu8);
            assert(m2[b][at + i] == m[b][at + i] & d);
            assert(0xFFu8 & d == d) by (bit_vector);
        }
    }
    assert(status_field(m2[b], g, o) =~= status_field(m[b], g, o));
    assert forall|k: int| 0 <= k < m2.len() implies (#[trigger] m2[k]).len() == g.block_size by {
        assert(m[k].len() == g.block_size);
    }
}

/// A scan walks past an object that was cut off between the two writes
/// that complete it: it meets the object as allocated, with the size that
/// was committed, and goes on behind its payload, on the next write unit.
pub proof fn lemma_size_committed_scan(m: Contents, g: Geometry, location: ObjectLocation, size: int)
    requires
        g.valid(),
        shaped(m, g),
        header_at(m, g, location) matches Ok(header) && header.state == ObjectState::Allocated,
        all_ones(size_field(m[location.block as int], g, location.offset as int)),
        0 <= size,
        location.offset + g.spec_object_header_bytes() + size <= g.block_size,
    ensures
        step_at(size_committed(m, g, location, size), g, location) == Step::Object(
            ObjectInfo {
                location,
                header: ObjectHeader { state: ObjectState::Allocated, object_size: size as usize },
            },
        ),
        (ObjectInfo {
            location,
            header: ObjectHeader { state: ObjectState::Allocated, object_size: size as usize },
        }).end(g) == g.spec_align(location.offset + g.spec_object_header_bytes() + size),
{
    lemma_align(g, 0);
    lemma_size_written(m, g, location, header_at(m, g, location).unwrap(), size);
    reveal(ObjectInfo::end);
}

/// Power lost between the two writes that complete an object leaves the
/// object unfinished: with the size committed and the state not yet
/// written, the object still reads as allocated, no reader opens it, and a
/// scan for any path passes it by.
pub proof fn lemma_size_committed_not_found(
    m: Contents,
    g: Geometry,
    location: ObjectLocation,
    size: int,
    path: Seq<u8>,
)
    requires
        g.valid(),
        shaped(m, g),
        header_at(m, g, location) matches Ok(header) && header.state == ObjectState::Allocated,
        all_ones(size_field(m[location.block as int], g, location.offset as int)),
        0 <= size <= g.block_size,
    ensures
        header_at(size_committed(m, g, location, size), g, location) == Ok::<
            ObjectHeader,
            StorageError,
        >(ObjectHeader { state: ObjectState::Allocated, object_size: size as usize }),
        crate::ll::objects::ObjectReader::spec_new(size_committed(m, g, location, size), g, location) == Err::<
            ObjectHeader,
            StorageError,
        >(StorageError::InvalidState),
        !crate::model::matches_at(size_committed(m, g, location, size), g, location, path),
{
    lemma_size_written(m, g, location, header_at(m, g, location).unwrap(), size);
    reveal(crate::model::matches_at);
}

/// A size field that was never written reads as a size that no block can
/// hold.
pub proof fn lemma_unwritten_size(m: Contents, g: Geometry, location: ObjectLocation, header: ObjectHeader)
    requires
        g.valid(),
        shaped(m, g),
        header_at(m, g, location) == Ok::<ObjectHeader, StorageError>(header),
        all_ones(size_field(m[location.block as int], g, location.offset as int)),
    ensures
        header.object_size >= g.block_size,
        !header.fits(g, location.offset as int),
{
    reveal(parse_header);
    lemma_align(g, 0);
    let field = size_field(m[location.block as int], g, location.offset as int);
    lemma_le_value_all_ones(field);
}

/// The objects of a block up to number `k`, and then `last`.
pub open spec fn with_last(objects: Seq<ObjectInfo>, k: int, last: ObjectInfo) -> Seq<ObjectInfo> {
    objects.take(k).push(last)
}

/// A write that touches a block only from its last object on, or only
/// behind its last object, leaves the objects before as they were. What
/// the scan then finds as the last object is the last object of the
/// layout, given that the block is erased behind it.
pub proof fn lemma_layout_tail(
    m: Contents,
    m2: Contents,
    g: Geometry,
    b: int,
    layout: BlockLayout,
    k: int,
    last: ObjectInfo,
)
    requires
        g.valid(),
        shaped(m, g),
        shaped(m2, g),
        0 <= b < g.block_count,
        block_laid_out(m, g, b, layout),
        layout.kind != BlockType::Undefined,
        0 <= k <= layout.objects.len(),
        layout.objects.len() - 1 <= k,
        same_outside(m, m2, b, start_of(g, layout.objects, k), g.block_size as int),
        step_at(m2, g, place_of(g, b, layout.objects, k)) == Step::Object(last),
        last.header.fits(g, last.location.offset as int) ==> blank_from(m2[b], last.end(g)),
    ensures
        block_laid_out(
            m2,
            g,
            b,
            BlockLayout { kind: layout.kind, objects: with_last(layout.objects, k, last) },
        ),
        end_of(g, with_last(layout.objects, k, last)) == last.end(g),
        with_last(layout.objects, k, last).len() == k + 1,
{
    lemma_align(g, 0);
    let objects = layout.objects;
    let objects2 = with_last(objects, k, last);
    let at = start_of(g, objects, k);
    lemma_layout_bounds(m, g, b, layout, k);
    assert(block_header(m2, b) =~= block_header(m, b));
    assert forall|i: int| 0 <= i < objects2.len() implies step_at(
        m2,
        g,
        place_of(g, b, objects2, i),
    ) == Step::Object(#[trigger] objects2[i]) by {
        if i < k {
            assert(objects2[i] == objects[i]);
            if i > 0 {
                assert(objects2[i - 1] == objects[i - 1]);
            }
            assert(place_of(g, b, objects2, i) == place_of(g, b, objects, i));
            assert(step_at(m, g, place_of(g, b, objects, i)) == Step::Object(objects[i]));
            lemma_layout_bounds(m, g, b, layout, i);
            lemma_layout_order(m, g, b, layout, i, k);
            lemma_step_object(m, g, place_of(g, b, objects, i), objects[i]);
            lemma_end_bounds(objects[i], g);
            lemma_header_in_extent(objects[i], g);
            lemma_step_frame(m, m2, g, b, at, g.block_size as int, place_of(g, b, objects, i));
        } else {
            if k > 0 {
                assert(objects2[k - 1] == objects[k - 1]);
            }
            assert(place_of(g, b, objects2, k) == place_of(g, b, objects, k));
        }
    }
    lemma_step_object(m2, g, place_of(g, b, objects, k), last);
    lemma_end_bounds(last, g);
    assert(end_of(g, objects2) == last.end(g));
    if last.header.fits(g, last.location.offset as int) {
        lemma_blank_step(m2, g, place_of(g, b, objects2, objects2.len() as int));
    } else {
        reveal(ObjectInfo::end);
    }
}

/// The header of an object lies before the object's end.
pub proof fn lemma_header_in_extent(info: ObjectInfo, g: Geometry)
    requires
        g.valid(),
        header_fits(g, info.location.offset as int),
        g.aligned(info.location.offset as int),
    ensures
        info.location.offset + g.spec_object_header_bytes() <= info.end(g),
{
    reveal(ObjectInfo::end);
    lemma_align(g, 0);
    if info.header.fits(g, info.location.offset as int) {
        lemma_align(g, info.location.offset + info.spec_total_size(g));
    }
}

/// Where an object ends depends on where it starts and on its size, not on
/// its state.
pub proof fn lemma_end_of_state(info: ObjectInfo, g: Geometry, state: ObjectState)
    ensures
        (ObjectInfo {
            location: info.location,
            header: ObjectHeader { state, object_size: info.header.object_size },
        }).end(g) == info.end(g),
{
    reveal(ObjectInfo::end);
}

/// The object `info` in another state.
pub open spec fn in_state(info: ObjectInfo, state: ObjectState) -> ObjectInfo {
    ObjectInfo {
        location: info.location,
        header: ObjectHeader { state, object_size: info.header.object_size },
    }
}

/// Setting the state of an object of a block to one that comes later in
/// its life changes that object's state in the layout, and nothing else.
pub proof fn lemma_layout_state(
    m: Contents,
    g: Geometry,
    b: int,
    layout: BlockLayout,
    k: int,
    next: ObjectState,
)
    requires
        g.valid(),
        shaped(m, g),
        0 <= b < g.block_count,
        block_laid_out(m, g, b, layout),
        0 <= k < layout.objects.len(),
        layout.objects[k].header.state.may_become(next),
    ensures
        block_laid_out(
            state_set(m, g, layout.objects[k].location, next),
            g,
            b,
            BlockLayout {
                kind: layout.kind,
                objects: layout.objects.update(k, in_state(layout.objects[k], next)),
            },
        ),
        end_of(g, layout.objects.update(k, in_state(layout.objects[k], next))) == end_of(
            g,
            layout.objects,
        ),
        shaped(state_set(m, g, layout.objects[k].location, next), g),
        same_outside(
            m,
            state_set(m, g, layout.objects[k].location, next),
            b,
            layout.objects[k].location.offset as int,
            layout.objects[k].location.offset + g.spec_object_status_bytes(),
        ),
{
    lemma_align(g, 0);
    let objects = layout.objects;
    let touched = objects[k];
    let m2 = state_set(m, g, touched.location, next);
    let objects2 = objects.update(k, in_state(touched, next));
    let lo = touched.location.offset as int;
    let hi = lo + g.spec_object_status_bytes();
    lemma_layout_bounds(m, g, b, layout, k);
    lemma_step_object(m, g, place_of(g, b, objects, k), touched);
    lemma_state_written(m, g, touched.location, touched.header, next);
    lemma_end_of_state(touched, g, next);
    lemma_header_in_extent(touched, g);
    assert(block_header(m2, b) =~= block_header(m, b));
    assert forall|i: int| 0 <= i <= objects.len() implies start_of(g, objects2, i) == start_of(
        g,
        objects,
        i,
    ) by {
        if i > 0 && i - 1 != k {
            assert(objects2[i - 1] == objects[i - 1]);
        }
    }
    assert forall|i: int| 0 <= i < objects2.len() implies step_at(
        m2,
        g,
        place_of(g, b, objects2, i),
    ) == Step::Object(#[trigger] objects2[i]) by {
        assert(start_of(g, objects2, i) == start_of(g, objects, i));
        if i != k {
            assert(objects2[i] == objects[i]);
            assert(step_at(m, g, place_of(g, b, objects, i)) == Step::Object(objects[i]));
            lemma_layout_bounds(m, g, b, layout, i);
            lemma_step_object(m, g, place_of(g, b, objects, i), objects[i]);
            lemma_header_in_extent(objects[i], g);
            if i < k {
                lemma_layout_order(m, g, b, layout, i, k);
            } else {
                lemma_layout_order(m, g, b, layout, k, i);
            }
            lemma_step_frame(m, m2, g, b, lo, hi, place_of(g, b, objects, i));
        }
    }
    if layout.kind != BlockType::Undefined {
        let n = objects.len() as int;
        assert(start_of(g, objects2, n) == start_of(g, objects, n));
        lemma_layout_order(m, g, b, layout, k, n);
        lemma_layout_bounds(m, g, b, layout, n);
        lemma_step_frame(m, m2, g, b, lo, hi, place_of(g, b, objects, n));
    }
}

/// The object was finalized or deleted: what it holds was committed.
pub open spec fn is_closed(info: ObjectInfo) -> bool {
    info.header.state == ObjectState::Finalized || info.header.state == ObjectState::Deleted
}

/// A write to `block` between `lo` and `hi` has spared every object that
/// was finalized or deleted, but for object number `tk` of block `tb`.
pub open spec fn spared(
    g: Geometry,
    layout: Seq<BlockLayout>,
    block: int,
    lo: int,
    hi: int,
    tb: int,
    tk: int,
) -> bool {
    forall|b: int, i: int|
        0 <= b < layout.len() && 0 <= i < layout[b].objects.len() && !(b == tb && i == tk)
            && is_closed(#[trigger] layout[b].objects[i]) ==> b != block
            || layout[b].objects[i].location.offset + layout[b].objects[i].spec_total_size(g) <= lo
            || hi <= layout[b].objects[i].location.offset
}

/// The layout `next` has every object of `layout`, in its place, but for
/// object number `tk` of block `tb`, which at least starts where it did.
/// Only a block without objects may have changed its kind.
pub open spec fn kept(layout: Seq<BlockLayout>, next: Seq<BlockLayout>, tb: int, tk: int) -> bool {
    &&& next.len() == layout.len()
    &&& forall|b: int|
        0 <= b < layout.len() ==> ((#[trigger] next[b]).kind == layout[b].kind
            || layout[b].objects.len() == 0) && next[b].objects.len() >= layout[b].objects.len()
    &&& forall|b: int, i: int|
        0 <= b < layout.len() && 0 <= i < layout[b].objects.len() ==> (
        #[trigger] next[b].objects[i]).location == layout[b].objects[i].location && (!(b == tb
            && i == tk) ==> next[b].objects[i] == layout[b].objects[i])
}

/// An object of the layout that was not touched is in the next layout what
/// it was, and the medium holds for it what it held.
pub proof fn lemma_object_kept(
    m: Contents,
    m2: Contents,
    g: Geometry,
    layout: Seq<BlockLayout>,
    next: Seq<BlockLayout>,
    block: int,
    lo: int,
    hi: int,
    tb: int,
    tk: int,
    kind: BlockType,
    location: ObjectLocation,
    index: int,
)
    requires
        g.valid(),
        shaped(m, g),
        laid_out(m, g, layout),
        closed(g, layout),
        same_outside(m, m2, block, lo, hi),
        spared(g, layout, block, lo, hi, tb, tk),
        kept(layout, next, tb, tk),
        holds(layout, kind, location, index),
        is_closed(layout[location.block as int].objects[index]),
        !(location.block == tb && index == tk),
    ensures
        holds(next, kind, location, index),
        held(next, location, index) == held(layout, location, index),
        payload_at(m2, g, location, held(layout, location, index).object_size as int)
            == payload_at(m, g, location, held(layout, location, index).object_size as int),
        header_at(m2, g, location) == header_at(m, g, location),
{
    let b = location.block as int;
    let info = layout[b].objects[index];
    lemma_held_header(m, g, layout, b, index);
    assert(next[b].objects[index] == info);
    assert(next[b].kind == layout[b].kind);
    lemma_frame(m, m2, g, block, lo, hi, location, info.header.object_size as int);
}

/// A record whose objects were not touched stays true of the medium.
pub proof fn lemma_record_frame(
    m: Contents,
    m2: Contents,
    g: Geometry,
    a: Model,
    a2: Model,
    block: int,
    lo: int,
    hi: int,
    tb: int,
    tk: int,
    b: int,
    i: int,
    r: FileRecord,
)
    requires
        g.valid(),
        shaped(m, g),
        laid_out(m, g, a.layout),
        closed(g, a.layout),
        same_outside(m, m2, block, lo, hi),
        spared(g, a.layout, block, lo, hi, tb, tk),
        kept(a.layout, a2.layout, tb, tk),
        is_entry(a.layout, b, i),
        record_ok(m, g, a, a.layout[b].objects[i], r),
        !(b == tb && i == tk),
        !(r.name_at.block == tb && r.name_index == tk),
        r.live ==> forall|j: int|
            0 <= j < r.chunks.len() ==> !((#[trigger] r.chunks[j]).at.block == tb
                && r.chunks[j].index == tk),
        forall|x: ObjectLocation| #[trigger]
            a.owner.dom().contains(x) ==> a2.owner.dom().contains(x) && a2.owner[x] == a.owner[x],
    ensures
        record_ok(m2, g, a2, a.layout[b].objects[i], r),
        a2.layout[b].objects[i] == a.layout[b].objects[i],
        is_entry(a2.layout, b, i),
{
    let info = a.layout[b].objects[i];
    let loc = info.location;
    lemma_held_header(m, g, a.layout, b, i);
    assert(holds(a.layout, BlockType::Metadata, loc, i));
    lemma_object_kept(
        m,
        m2,
        g,
        a.layout,
        a2.layout,
        block,
        lo,
        hi,
        tb,
        tk,
        BlockType::Metadata,
        loc,
        i,
    );
    lemma_object_kept(
        m,
        m2,
        g,
        a.layout,
        a2.layout,
        block,
        lo,
        hi,
        tb,
        tk,
        BlockType::Data,
        r.name_at,
        r.name_index,
    );
    assert(a.owner.dom().contains(r.name_at));
    if r.live {
        assert forall|j: int| 0 <= j < r.chunks.len() implies #[trigger] chunk_ok(
            m2,
            g,
            a2,
            loc,
            r,
            j,
        ) by {
            assert(chunk_ok(m, g, a, loc, r, j));
            let c = r.chunks[j];
            lemma_object_kept(
                m,
                m2,
                g,
                a.layout,
                a2.layout,
                block,
                lo,
                hi,
                tb,
                tk,
                BlockType::Data,
                c.at,
                c.index,
            );
            assert(a.owner.dom().contains(c.at));
        }
    }
}

/// Where a write has spared all objects that were finalized or deleted,
/// and the layout has kept them, every entry stays an entry of the file it
/// stood for, and what was claimed stays in its place.
pub proof fn lemma_entries_frame(
    m: Contents,
    m2: Contents,
    g: Geometry,
    a: Model,
    a2: Model,
    block: int,
    lo: int,
    hi: int,
    tb: int,
    tk: int,
)
    requires
        refines(m, g, a),
        same_outside(m, m2, block, lo, hi),
        spared(g, a.layout, block, lo, hi, tb, tk),
        kept(a.layout, a2.layout, tb, tk),
        0 <= tb < a.layout.len() && 0 <= tk < a.layout[tb].objects.len() ==> !is_closed(
            a.layout[tb].objects[tk],
        ),
        a2.records == a.records,
        a2.owner == a.owner,
        forall|b: int, i: int| #[trigger]
            is_entry(a2.layout, b, i) ==> i < a.layout[b].objects.len() && !(b == tb && i == tk),
    ensures
        entries_ok(m2, g, a2),
        claims_ok(a2),
        forall|b: int, i: int| #[trigger]
            is_entry(a2.layout, b, i) ==> is_entry(a.layout, b, i) && a2.layout[b].objects[i]
                == a.layout[b].objects[i],
        forall|b: int, i: int| #[trigger]
            is_entry(a.layout, b, i) ==> is_entry(a2.layout, b, i),
{
    reveal(refines);
    assert forall|b: int, i: int| #[trigger] is_entry(a2.layout, b, i) implies is_entry(
        a.layout,
        b,
        i,
    ) && a2.layout[b].objects[i] == a.layout[b].objects[i] && a2.records.dom().contains(
        a2.layout[b].objects[i].location,
    ) && record_ok(
        m2,
        g,
        a2,
        a2.layout[b].objects[i],
        a2.records[a2.layout[b].objects[i].location],
    ) by {
        assert(a2.layout[b].objects[i] == a.layout[b].objects[i]);
        assert(a2.layout[b].kind == a.layout[b].kind);
        let info = a.layout[b].objects[i];
        let r = a.records[info.location];
        assert(is_entry(a.layout, b, i));
        assert(record_ok(m, g, a, info, r));
        assert(is_closed(a.layout[r.name_at.block as int].objects[r.name_index]));
        if r.live {
            assert forall|j: int| 0 <= j < r.chunks.len() implies !((
            #[trigger] r.chunks[j]).at.block == tb && r.chunks[j].index == tk) by {
                assert(chunk_ok(m, g, a, info.location, r, j));
                assert(is_closed(
                    a.layout[r.chunks[j].at.block as int].objects[r.chunks[j].index],
                ));
            }
        }
        lemma_record_frame(m, m2, g, a, a2, block, lo, hi, tb, tk, b, i, r);
    }
    assert(entries_ok(m2, g, a2)) by {
        assert forall|b: int, i: int|
            0 <= b < a2.layout.len() && 0 <= i < a2.layout[b].objects.len() && a2.layout[b].kind
                == BlockType::Metadata && (#[trigger] a2.layout[b].objects[i]).header.state
                == ObjectState::Finalized implies a2.records.dom().contains(
            a2.layout[b].objects[i].location,
        ) && record_ok(
            m2,
            g,
            a2,
            a2.layout[b].objects[i],
            a2.records[a2.layout[b].objects[i].location],
        ) by {
            assert(is_entry(a2.layout, b, i));
        }
    }
    assert forall|b: int, i: int| #[trigger] is_entry(a.layout, b, i) implies is_entry(
        a2.layout,
        b,
        i,
    ) by {
        assert(is_closed(a.layout[b].objects[i]));
        assert(a2.layout[b].objects[i] == a.layout[b].objects[i]);
        assert(a2.layout[b].kind == a.layout[b].kind);
    }
    assert forall|x: ObjectLocation| #[trigger] a2.owner.dom().contains(x) implies placed(
        a2.layout,
        BlockType::Data,
        x,
    ) by {
        assert(placed(a.layout, BlockType::Data, x));
        let index = choose|index: int| holds(a.layout, BlockType::Data, x, index);
        assert(a2.layout[x.block as int].objects[index].location == x);
        assert(a2.layout[x.block as int].kind == a.layout[x.block as int].kind);
        assert(holds(a2.layout, BlockType::Data, x, index));
    }
}

/// Every object that was finalized or deleted is still in its place, and
/// the medium holds for it what it held.
pub open spec fn preserves(
    m: Contents,
    m2: Contents,
    g: Geometry,
    layout: Seq<BlockLayout>,
    next: Seq<BlockLayout>,
) -> bool {
    &&& next.len() == layout.len()
    &&& forall|b: int, i: int|
        0 <= b < layout.len() && 0 <= i < layout[b].objects.len() && is_closed(
            #[trigger] layout[b].objects[i],
        ) ==> i < next[b].objects.len() && next[b].objects[i] == layout[b].objects[i]
            && next[b].kind == layout[b].kind && payload_at(
            m2,
            g,
            layout[b].objects[i].location,
            layout[b].objects[i].header.object_size as int,
        ) == payload_at(
            m,
            g,
            layout[b].objects[i].location,
            layout[b].objects[i].header.object_size as int,
        )
}

/// Where nothing has changed, everything is preserved.
pub proof fn lemma_preserves_same(m: Contents, g: Geometry, a: Model)
    ensures
        preserves(m, m, g, a.layout, a.layout),
{
}

/// What is preserved over two steps is preserved over both.
pub proof fn lemma_preserves_twice(
    m: Contents,
    m2: Contents,
    m3: Contents,
    g: Geometry,
    l: Seq<BlockLayout>,
    l2: Seq<BlockLayout>,
    l3: Seq<BlockLayout>,
)
    requires
        preserves(m, m2, g, l, l2),
        preserves(m2, m3, g, l2, l3),
    ensures
        preserves(m, m3, g, l, l3),
{
    assert forall|b: int, i: int|
        0 <= b < l.len() && 0 <= i < l[b].objects.len() && is_closed(
            #[trigger] l[b].objects[i],
        ) implies i < l3[b].objects.len() && l3[b].objects[i] == l[b].objects[i] && l3[b].kind
        == l[b].kind && payload_at(
        m3,
        g,
        l[b].objects[i].location,
        l[b].objects[i].header.object_size as int,
    ) == payload_at(m, g, l[b].objects[i].location, l[b].objects[i].header.object_size as int) by {
        assert(l2[b].objects[i] == l[b].objects[i]);
        assert(is_closed(l2[b].objects[i]));
    }
}

/// Where a write has spared all objects that were finalized or deleted,
/// and the layout has kept them, they are preserved.
pub proof fn lemma_preserves(
    m: Contents,
    m2: Contents,
    g: Geometry,
    layout: Seq<BlockLayout>,
    next: Seq<BlockLayout>,
    block: int,
    lo: int,
    hi: int,
    tb: int,
    tk: int,
)
    requires
        g.valid(),
        shaped(m, g),
        laid_out(m, g, layout),
        closed(g, layout),
        same_outside(m, m2, block, lo, hi),
        spared(g, layout, block, lo, hi, tb, tk),
        kept(layout, next, tb, tk),
        0 <= tb < layout.len() && 0 <= tk < layout[tb].objects.len() ==> !is_closed(
            layout[tb].objects[tk],
        ),
    ensures
        preserves(m, m2, g, layout, next),
{
    assert forall|b: int, i: int|
        0 <= b < layout.len() && 0 <= i < layout[b].objects.len() && is_closed(
            #[trigger] layout[b].objects[i],
        ) implies i < next[b].objects.len() && next[b].objects[i] == layout[b].objects[i]
        && next[b].kind == layout[b].kind && payload_at(
        m2,
        g,
        layout[b].objects[i].location,
        layout[b].objects[i].header.object_size as int,
    ) == payload_at(
        m,
        g,
        layout[b].objects[i].location,
        layout[b].objects[i].header.object_size as int,
    ) by {
        lemma_held_header(m, g, layout, b, i);
        let kind = layout[b].kind;
        assert(holds(layout, kind, layout[b].objects[i].location, i));
        lemma_object_kept(
            m,
            m2,
            g,
            layout,
            next,
            block,
            lo,
            hi,
            tb,
            tk,
            kind,
            layout[b].objects[i].location,
            i,
        );
    }
}

/// A block that a write has not touched has the layout it had.
pub proof fn lemma_block_same(m: Contents, m2: Contents, g: Geometry, b: int, layout: BlockLayout)
    requires
        0 <= b < m.len(),
        b < g.block_count,
        m2.len() == m.len(),
        m2[b] == m[b],
        block_laid_out(m, g, b, layout),
    ensures
        block_laid_out(m2, g, b, layout),
{
    assert forall|i: int| 0 <= i <= layout.objects.len() implies step_at(
        m2,
        g,
        place_of(g, b, layout.objects, i),
    ) == step_at(m, g, place_of(g, b, layout.objects, i)) by {}
    assert forall|i: int| 0 <= i < layout.objects.len() implies step_at(
        m2,
        g,
        place_of(g, b, layout.objects, i),
    ) == Step::Object(#[trigger] layout.objects[i]) by {
        assert(step_at(m, g, place_of(g, b, layout.objects, i)) == Step::Object(
            layout.objects[i],
        ));
    }
}

/// Contents that agree outside one block agree in every other block.
pub proof fn lemma_other_blocks(m: Contents, m2: Contents, block: int, lo: int, hi: int, b: int)
    requires
        same_outside(m, m2, block, lo, hi),
        0 <= b < m.len(),
        b != block,
    ensures
        m2[b] == m[b],
{
    assert(m[b].len() == m2[b].len());
    assert(m2[b] =~= m[b]);
}

/// The structure `a` with another last object in block `b`.
pub open spec fn with_tail(a: Model, b: int, k: int, last: ObjectInfo) -> Model {
    Model {
        layout: a.layout.update(
            b,
            BlockLayout {
                kind: a.layout[b].kind,
                objects: with_last(a.layout[b].objects, k, last),
            },
        ),
        records: a.records,
        owner: a.owner,
    }
}

/// The two structures have the same entries, for the same files.
pub open spec fn same_entries(a: Model, a2: Model) -> bool {
    &&& forall|b: int, i: int| #[trigger]
        is_entry(a2.layout, b, i) ==> is_entry(a.layout, b, i) && a2.layout[b].objects[i]
            == a.layout[b].objects[i] && a2.records[a2.layout[b].objects[i].location]
            == a.records[a.layout[b].objects[i].location]
    &&& forall|b: int, i: int| #[trigger] is_entry(a.layout, b, i) ==> is_entry(a2.layout, b, i)
}

/// A write that touches a block only from its last object on, which is
/// still being written, or only behind its last object, gives the layout
/// with the new last object, and spares what was committed.
pub proof fn lemma_tail_layout(
    m: Contents,
    m2: Contents,
    g: Geometry,
    a: Model,
    b: int,
    k: int,
    last: ObjectInfo,
)
    requires
        refines(m, g, a),
        shaped(m2, g),
        0 <= b < g.block_count,
        a.layout[b].kind != BlockType::Undefined,
        0 <= k <= a.layout[b].objects.len(),
        a.layout[b].objects.len() - 1 <= k,
        k < a.layout[b].objects.len() ==> a.layout[b].objects[k].header.state
            == ObjectState::Allocated,
        same_outside(m, m2, b, start_of(g, a.layout[b].objects, k), g.block_size as int),
        step_at(m2, g, place_of(g, b, a.layout[b].objects, k)) == Step::Object(last),
        last.header.fits(g, last.location.offset as int) ==> blank_from(m2[b], last.end(g)),
        is_closed(last) ==> last.header.fits(g, last.location.offset as int),
    ensures
        laid_out(m2, g, with_tail(a, b, k, last).layout),
        free_blank(m2, g, with_tail(a, b, k, last).layout),
        closed(g, with_tail(a, b, k, last).layout),
        spared(
            g,
            a.layout,
            b,
            start_of(g, a.layout[b].objects, k),
            g.block_size as int,
            b,
            k,
        ),
        kept(a.layout, with_tail(a, b, k, last).layout, b, k),
        with_tail(a, b, k, last).layout[b].objects.len() == k + 1,
        with_tail(a, b, k, last).layout[b].objects[k] == last,
        last.location == place_of(g, b, a.layout[b].objects, k),
{
    reveal(refines);
    lemma_align(g, 0);
    let a2 = with_tail(a, b, k, last);
    let objects = a.layout[b].objects;
    let lo = start_of(g, objects, k);
    let hi = g.block_size as int;
    lemma_layout_tail(m, m2, g, b, a.layout[b], k, last);
    lemma_layout_bounds(m, g, b, a.layout[b], k);
    lemma_step_object(m2, g, place_of(g, b, objects, k), last);
    assert forall|b2: int| 0 <= b2 < a2.layout.len() implies block_laid_out(
        m2,
        g,
        b2,
        #[trigger] a2.layout[b2],
    ) && blank_from(m2[b2], end_of(g, a2.layout[b2].objects)) by {
        if b2 != b {
            lemma_other_blocks(m, m2, b, lo, hi, b2);
            assert(a2.layout[b2] == a.layout[b2]);
            lemma_block_same(m, m2, g, b2, a.layout[b2]);
        } else {
            if !last.header.fits(g, last.location.offset as int) {
                reveal(ObjectInfo::end);
            }
        }
    }
    assert(closed(g, a2.layout)) by {
        assert forall|b2: int, i: int|
            0 <= b2 < a2.layout.len() && 0 <= i < a2.layout[b2].objects.len() && is_closed(
                #[trigger] a2.layout[b2].objects[i],
            ) implies a2.layout[b2].objects[i].header.fits(
            g,
            a2.layout[b2].objects[i].location.offset as int,
        ) by {
            if b2 == b && i < k {
                assert(a2.layout[b2].objects[i] == a.layout[b].objects[i]);
            }
        }
    }
    assert(spared(g, a.layout, b, lo, hi, b, k)) by {
        assert forall|b2: int, i: int|
            0 <= b2 < a.layout.len() && 0 <= i < a.layout[b2].objects.len() && !(b2 == b && i
                == k) && is_closed(#[trigger] a.layout[b2].objects[i]) implies b2 != b
            || a.layout[b2].objects[i].location.offset + a.layout[b2].objects[i].spec_total_size(
            g,
        ) <= lo || hi <= a.layout[b2].objects[i].location.offset by {
            if b2 == b {
                lemma_held_header(m, g, a.layout, b, i);
                lemma_layout_order(m, g, b, a.layout[b], i, k);
            }
        }
    }
    assert(kept(a.layout, a2.layout, b, k)) by {
        assert forall|b2: int, i: int|
            0 <= b2 < a.layout.len() && 0 <= i < a.layout[b2].objects.len() implies (
        #[trigger] a2.layout[b2].objects[i]).location == a.layout[b2].objects[i].location && (!(b2
            == b && i == k) ==> a2.layout[b2].objects[i] == a.layout[b2].objects[i]) by {
            if b2 == b {
                lemma_held_header(m, g, a.layout, b, i);
            }
        }
    }
}

/// A write that touches a block only from its last object on, which is
/// still being written, or only behind its last object, keeps the medium
/// consistent and its files as they are: nothing that was committed is
/// touched, and what is written is no entry.
pub proof fn lemma_refines_tail(
    m: Contents,
    m2: Contents,
    g: Geometry,
    a: Model,
    b: int,
    k: int,
    last: ObjectInfo,
)
    requires
        refines(m, g, a),
        shaped(m2, g),
        0 <= b < g.block_count,
        a.layout[b].kind != BlockType::Undefined,
        0 <= k <= a.layout[b].objects.len(),
        a.layout[b].objects.len() - 1 <= k,
        k < a.layout[b].objects.len() ==> a.layout[b].objects[k].header.state
            == ObjectState::Allocated,
        same_outside(m, m2, b, start_of(g, a.layout[b].objects, k), g.block_size as int),
        step_at(m2, g, place_of(g, b, a.layout[b].objects, k)) == Step::Object(last),
        last.header.fits(g, last.location.offset as int) ==> blank_from(m2[b], last.end(g)),
        last.header.state == ObjectState::Allocated || (last.header.state
            == ObjectState::Finalized && last.header.fits(g, last.location.offset as int)
            && a.layout[b].kind == BlockType::Data),
    ensures
        refines(m2, g, with_tail(a, b, k, last)),
        same_entries(a, with_tail(a, b, k, last)),
        preserves(m, m2, g, a.layout, with_tail(a, b, k, last).layout),
{
    reveal(refines);
    let a2 = with_tail(a, b, k, last);
    let lo = start_of(g, a.layout[b].objects, k);
    let hi = g.block_size as int;
    lemma_tail_layout(m, m2, g, a, b, k, last);
    lemma_entries_frame(m, m2, g, a, a2, b, lo, hi, b, k);
    lemma_preserves(m, m2, g, a.layout, a2.layout, b, lo, hi, b, k);
}

/// The structure `a` with block `b` given a kind.
pub open spec fn with_kind(a: Model, b: int, kind: BlockType) -> Model {
    Model {
        layout: a.layout.update(b, BlockLayout { kind, objects: Seq::empty() }),
        records: a.records,
        owner: a.owner,
    }
}

/// Giving an undefined block a kind keeps the medium consistent and its
/// files as they are.
pub proof fn lemma_refines_claim(m: Contents, g: Geometry, a: Model, b: int, kind: BlockType)
    requires
        refines(m, g, a),
        0 <= b < g.block_count,
        a.layout[b].kind == BlockType::Undefined,
        kind != BlockType::Undefined,
    ensures
        refines(written(m, b, 0, kind.encoding()), g, with_kind(a, b, kind)),
        same_entries(a, with_kind(a, b, kind)),
        preserves(m, written(m, b, 0, kind.encoding()), g, a.layout, with_kind(a, b, kind).layout),
        shaped(written(m, b, 0, kind.encoding()), g),
        end_of(g, with_kind(a, b, kind).layout[b].objects) == HEADER_BYTES,
{
    reveal(refines);
    lemma_align(g, 0);
    let m2 = written(m, b, 0, kind.encoding());
    let a2 = with_kind(a, b, kind);
    let enc = kind.encoding();
    kind.lemma_parse_encoding();
    BlockType::Undefined.lemma_parse_encoding();
    crate::medium::lemma_written_outside(m, b, 0, enc);
    assert(shaped(m2, g));
    assert(block_laid_out(m, g, b, a.layout[b]));
    assert(blank_from(m[b], end_of(g, a.layout[b].objects)));
    let old_header = block_header(m, b);
    assert(old_header == BlockType::Undefined.encoding());
    assert(block_header(m2, b) =~= enc) by {
        assert forall|i: int| 0 <= i < 4 implies block_header(m2, b)[i] == enc[i] by {
            let e = enc[i];
            assert(old_header[i] == 0xFFu8);
            assert(m[b][i] == old_header[i]);
            assert(0xFFu8 & e == e) by (bit_vector);
        }
    }
    assert forall|i: int| HEADER_BYTES <= i < m2[b].len() implies #[trigger] m2[b][i]
        == 0xFFu8 by {
        assert(m[b][i] == 0xFFu8);
    }
    lemma_blank_step(m2, g, ObjectLocation { block: b as usize, offset: HEADER_BYTES });
    assert forall|b2: int| 0 <= b2 < a2.layout.len() implies block_laid_out(
        m2,
        g,
        b2,
        #[trigger] a2.layout[b2],
    ) && blank_from(m2[b2], end_of(g, a2.layout[b2].objects)) by {
        if b2 != b {
            lemma_other_blocks(m, m2, b, 0, 4, b2);
            assert(a2.layout[b2] == a.layout[b2]);
            lemma_block_same(m, m2, g, b2, a.layout[b2]);
        }
    }
    assert(closed(g, a2.layout)) by {
        assert forall|b2: int, i: int|
            0 <= b2 < a2.layout.len() && 0 <= i < a2.layout[b2].objects.len() && is_closed(
                #[trigger] a2.layout[b2].objects[i],
            ) implies a2.layout[b2].objects[i].header.fits(
            g,
            a2.layout[b2].objects[i].location.offset as int,
        ) by {
            assert(a2.layout[b2].objects[i] == a.layout[b2].objects[i]);
        }
    }
    assert(spared(g, a.layout, b, 0, 4, b, 0)) by {
        assert forall|b2: int, i: int|
            0 <= b2 < a.layout.len() && 0 <= i < a.layout[b2].objects.len() && !(b2 == b && i
                == 0) && is_closed(#[trigger] a.layout[b2].objects[i]) implies b2 != b
            || a.layout[b2].objects[i].location.offset + a.layout[b2].objects[i].spec_total_size(
            g,
        ) <= 0 || 4 <= a.layout[b2].objects[i].location.offset by {}
    }
    assert(kept(a.layout, a2.layout, b, 0));
    lemma_entries_frame(m, m2, g, a, a2, b, 0, 4, b, 0);
    lemma_preserves(m, m2, g, a.layout, a2.layout, b, 0, 4, b, 0);
}

/// Media that are consistent with the same entries hold the same files.
pub proof fn lemma_files_same(m: Contents, m2: Contents, g: Geometry, a: Model, a2: Model)
    requires
        refines(m, g, a),
        refines(m2, g, a2),
        same_entries(a, a2),
    ensures
        files(m2, g) == files(m, g),
        forall|path: Seq<u8>| lookup(m2, g, path) == lookup(m, g, path),
{
    reveal(refines);
    lemma_layout_unique(m, g, a.layout);
    lemma_layout_unique(m2, g, a2.layout);
    assert forall|path: Seq<u8>| lookup(m2, g, path) == lookup(m, g, path) && (lookup(
        m,
        g,
        path,
    ) matches Some(loc) ==> contents_at(m2, g, loc) == contents_at(m, g, loc)) by {
        assert forall|b: int, i: int|
            is_hit(m2, g, a2.layout, path, b, i) == is_hit(m, g, a.layout, path, b, i) by {
            lemma_hit_iff(m, g, a, path, b, i);
            lemma_hit_iff(m2, g, a2, path, b, i);
            if is_entry(a.layout, b, i) {
                assert(is_entry(a2.layout, b, i));
            }
            if is_entry(a2.layout, b, i) {
                assert(is_entry(a.layout, b, i));
            }
        }
        if exists|b: int, i: int| is_first_hit(m, g, a.layout, path, b, i) {
            let (b, i) = choose|b: int, i: int| is_first_hit(m, g, a.layout, path, b, i);
            assert(is_first_hit(m2, g, a2.layout, path, b, i));
            lemma_first_hit_unique(m, g, a.layout, path, b, i);
            lemma_first_hit_unique(m2, g, a2.layout, path, b, i);
            lemma_hit_iff(m, g, a, path, b, i);
            assert(is_entry(a2.layout, b, i));
            lemma_entry_contents(m, g, a, b, i);
            lemma_entry_contents(m2, g, a2, b, i);
        } else {
            if exists|b: int, i: int| is_first_hit(m2, g, a2.layout, path, b, i) {
                let (b, i) = choose|b: int, i: int| is_first_hit(m2, g, a2.layout, path, b, i);
                assert(is_first_hit(m, g, a.layout, path, b, i));
            }
        }
    }
    assert(files(m2, g) =~= files(m, g));
}

/// The offset of the first payload byte of the object at `location`.
pub open spec fn payload_start(g: Geometry, location: ObjectLocation) -> int {
    location.offset + g.spec_object_header_bytes()
}

/// An object is being written at `location`: its size is not committed
/// yet, the first `flushed` bytes of `accepted` are in place, and behind
/// them the block is erased.
pub open spec fn in_progress(
    m: Contents,
    g: Geometry,
    location: ObjectLocation,
    accepted: Seq<u8>,
    flushed: int,
) -> bool {
    &&& g.valid()
    &&& shaped(m, g)
    &&& location.block < g.block_count
    &&& header_fits(g, location.offset as int)
    &&& 0 <= flushed <= accepted.len()
    &&& payload_start(g, location) + accepted.len() <= g.block_size
    &&& all_ones(size_field(m[location.block as int], g, location.offset as int))
    &&& forall|i: int|
        0 <= i < flushed ==> m[location.block as int][payload_start(g, location) + i]
            == #[trigger] accepted[i]
    &&& blank_from(m[location.block as int], payload_start(g, location) + flushed)
}

/// Where a block is erased from `location` on, the header there reads as
/// free, with a size that was never written.
pub proof fn lemma_blank_header(m: Contents, g: Geometry, location: ObjectLocation) -> (header:
    ObjectHeader)
    requires
        g.valid(),
        shaped(m, g),
        location.block < g.block_count,
        header_fits(g, location.offset as int),
        blank_from(m[location.block as int], location.offset as int),
    ensures
        header_at(m, g, location) == Ok::<ObjectHeader, StorageError>(header),
        header.state == ObjectState::Free,
        all_ones(size_field(m[location.block as int], g, location.offset as int)),
{
    reveal(parse_header);
    lemma_align(g, 0);
    let block = m[location.block as int];
    let status = status_field(block, g, location.offset as int);
    let size = size_field(block, g, location.offset as int);
    assert forall|i: int| 0 <= i < status.len() implies status[i] == 0xFFu8 by {
        assert(status[i] == block[location.offset + i]);
    }
    assert forall|i: int| 0 <= i < size.len() implies #[trigger] size[i] == 0xFFu8 by {
        assert(size[i] == block[location.offset + g.spec_object_status_bytes() + i]);
    }
    match g.granularity {
        WriteGranularity::Bit => {},
        WriteGranularity::Word(_) => {
            assert(status =~= ObjectState::Free.spec_words());
        },
    }
    header_at(m, g, location).unwrap()
}

/// Allocating an object in erased space starts its writing.
pub proof fn lemma_progress_start(m: Contents, g: Geometry, location: ObjectLocation) -> (header:
    ObjectHeader)
    requires
        g.valid(),
        shaped(m, g),
        location.block < g.block_count,
        header_fits(g, location.offset as int),
        blank_from(m[location.block as int], location.offset as int),
    ensures
        in_progress(
            state_set(m, g, location, ObjectState::Allocated),
            g,
            location,
            Seq::<u8>::empty(),
            0,
        ),
        header_at(state_set(m, g, location, ObjectState::Allocated), g, location) == Ok::<
            ObjectHeader,
            StorageError,
        >(header),
        header.state == ObjectState::Allocated,
        !header.fits(g, location.offset as int),
        same_outside(
            m,
            state_set(m, g, location, ObjectState::Allocated),
            location.block as int,
            location.offset as int,
            location.offset + g.spec_object_status_bytes(),
        ),
{
    lemma_align(g, 0);
    let free = lemma_blank_header(m, g, location);
    lemma_state_written(m, g, location, free, ObjectState::Allocated);
    let m2 = state_set(m, g, location, ObjectState::Allocated);
    let b = location.block as int;
    let o = location.offset as int;
    assert(size_field(m2[b], g, o) =~= size_field(m[b], g, o));
    assert forall|i: int| payload_start(g, location) <= i < m2[b].len() implies #[trigger] m2[b][i]
        == 0xFFu8 by {
        assert(m[b][i] == 0xFFu8);
    }
    let header = header_at(m2, g, location).unwrap();
    lemma_unwritten_size(m2, g, location, header);
    header
}

/// Programming the next payload bytes behind those in place moves the
/// writing on, and touches nothing else.
pub proof fn lemma_progress_write(
    m: Contents,
    g: Geometry,
    location: ObjectLocation,
    accepted: Seq<u8>,
    flushed: int,
    more: Seq<u8>,
    reached: int,
)
    requires
        in_progress(m, g, location, accepted, flushed),
        more.len() >= accepted.len(),
        more.subrange(0, accepted.len() as int) == accepted,
        flushed <= reached <= more.len(),
        payload_start(g, location) + more.len() <= g.block_size,
    ensures
        in_progress(
            written(
                m,
                location.block as int,
                payload_start(g, location) + flushed,
                more.subrange(flushed, reached),
            ),
            g,
            location,
            more,
            reached,
        ),
        same_outside(
            m,
            written(
                m,
                location.block as int,
                payload_start(g, location) + flushed,
                more.subrange(flushed, reached),
            ),
            location.block as int,
            payload_start(g, location) + flushed,
            payload_start(g, location) + reached,
        ),
        header_at(
            written(
                m,
                location.block as int,
                payload_start(g, location) + flushed,
                more.subrange(flushed, reached),
            ),
            g,
            location,
        ) == header_at(m, g, location),
{
    lemma_align(g, 0);
    let b = location.block as int;
    let start = payload_start(g, location);
    let chunk = more.subrange(flushed, reached);
    let m2 = written(m, b, start + flushed, chunk);
    crate::medium::lemma_written_outside(m, b, start + flushed, chunk);
    lemma_frame(m, m2, g, b, start + flushed, start + reached, location, 0);
    assert(size_field(m2[b], g, location.offset as int) =~= size_field(
        m[b],
        g,
        location.offset as int,
    ));
    assert forall|i: int| 0 <= i < reached implies m2[b][start + i] == #[trigger] more[i] by {
        if i < flushed {
            assert(accepted[i] == more.subrange(0, accepted.len() as int)[i]);
            assert(m[b][start + i] == accepted[i]);
        } else {
            let d = chunk[i - flushed];
            assert(m[b][start + i] == 0xFFu8);
            assert(m2[b][start + i] == m[b][start + i] & d);
            assert(0xFFu8 & d == d) by (bit_vector);
        }
    }
    assert forall|i: int| start + reached <= i < m2[b].len() implies #[trigger] m2[b][i]
        == 0xFFu8 by {
        assert(m[b][i] == 0xFFu8);
    }
}

/// The object at `location` is complete but for its state: the size is
/// committed, the payload is in place, and behind the object the block is
/// erased.
pub open spec fn completed(m: Contents, g: Geometry, location: ObjectLocation, payload: Seq<u8>) -> bool {
    &&& g.valid()
    &&& shaped(m, g)
    &&& location.block < g.block_count
    &&& header_fits(g, location.offset as int)
    &&& payload_start(g, location) + payload.len() <= g.block_size
    &&& header_at(m, g, location) matches Ok(header) && header.object_size == payload.len()
    &&& payload_at(m, g, location, payload.len() as int) == payload
    &&& blank_from(m[location.block as int], payload_start(g, location) + payload.len())
}

/// Committing the size of an object in progress leaves its payload and the
/// erased space behind it as they are.
pub proof fn lemma_progress_size(
    m: Contents,
    g: Geometry,
    location: ObjectLocation,
    accepted: Seq<u8>,
    flushed: int,
    header: ObjectHeader,
)
    requires
        in_progress(m, g, location, accepted, flushed),
        header_at(m, g, location) == Ok::<ObjectHeader, StorageError>(header),
    ensures
        header_at(size_committed(m, g, location, accepted.len() as int), g, location) == Ok::<
            ObjectHeader,
            StorageError,
        >(ObjectHeader { state: header.state, object_size: accepted.len() as usize }),
        same_outside(
            m,
            size_committed(m, g, location, accepted.len() as int),
            location.block as int,
            location.offset + g.spec_object_status_bytes(),
            payload_start(g, location),
        ),
        shaped(size_committed(m, g, location, accepted.len() as int), g),
        blank_from(
            size_committed(m, g, location, accepted.len() as int)[location.block as int],
            payload_start(g, location) + flushed,
        ),
        forall|i: int|
            0 <= i < flushed ==> size_committed(
                m,
                g,
                location,
                accepted.len() as int,
            )[location.block as int][payload_start(g, location) + i] == #[trigger] accepted[i],
{
    lemma_align(g, 0);
    lemma_size_written(m, g, location, header, accepted.len() as int);
    let m2 = size_committed(m, g, location, accepted.len() as int);
    let b = location.block as int;
    let start = payload_start(g, location);
    assert forall|i: int| start + flushed <= i < m2[b].len() implies #[trigger] m2[b][i]
        == 0xFFu8 by {
        assert(m[b][i] == 0xFFu8);
    }
    assert forall|i: int| 0 <= i < flushed implies m2[b][start + i] == #[trigger] accepted[i] by {
        assert(m[b][start + i] == accepted[i]);
    }
}

/// Writing out what was staged completes the payload.
pub proof fn lemma_progress_flush(
    m: Contents,
    g: Geometry,
    location: ObjectLocation,
    accepted: Seq<u8>,
    flushed: int,
    header: ObjectHeader,
)
    requires
        g.valid(),
        shaped(m, g),
        location.block < g.block_count,
        header_fits(g, location.offset as int),
        g.aligned(location.offset as int),
        0 <= flushed <= accepted.len(),
        g.aligned(flushed),
        accepted.len() - flushed < g.word(),
        payload_start(g, location) + accepted.len() <= g.block_size,
        header_at(m, g, location) == Ok::<ObjectHeader, StorageError>(header),
        header.object_size == accepted.len(),
        forall|i: int|
            0 <= i < flushed ==> m[location.block as int][payload_start(g, location) + i]
                == #[trigger] accepted[i],
        blank_from(m[location.block as int], payload_start(g, location) + flushed),
    ensures
        completed(
            rest_flushed(
                m,
                g,
                location,
                payload_start(g, location) + flushed,
                accepted.subrange(flushed, accepted.len() as int),
            ),
            g,
            location,
            accepted,
        ),
        header_at(
            rest_flushed(
                m,
                g,
                location,
                payload_start(g, location) + flushed,
                accepted.subrange(flushed, accepted.len() as int),
            ),
            g,
            location,
        ) == Ok::<ObjectHeader, StorageError>(header),
        same_outside(
            m,
            rest_flushed(
                m,
                g,
                location,
                payload_start(g, location) + flushed,
                accepted.subrange(flushed, accepted.len() as int),
            ),
            location.block as int,
            payload_start(g, location) + flushed,
            payload_start(g, location) + g.spec_align(accepted.len() as int),
        ),
        payload_start(g, location) + g.spec_align(accepted.len() as int) <= g.block_size,
{
    lemma_align(g, 0);
    lemma_align(g, accepted.len() as int);
    let b = location.block as int;
    let start = payload_start(g, location);
    let pending = accepted.subrange(flushed, accepted.len() as int);
    let m2 = rest_flushed(m, g, location, start + flushed, pending);
    lemma_aligned_sum(g, location.offset as int, g.spec_object_header_bytes());
    lemma_aligned_sum(g, g.block_size as int, start);
    crate::medium::lemma_round_bound(g, g.block_size - start, accepted.len() as int);
    crate::medium::lemma_align_shift(g, flushed, pending.len() as int);
    lemma_align(g, pending.len() as int);
    let unit = padded(g, pending);
    if pending.len() > 0 {
        crate::medium::lemma_written_outside(m, b, start + flushed, unit);
        assert forall|i: int| 0 <= i < accepted.len() implies m2[b][start + i] == accepted[i] by {
            if i < flushed {
                assert(m[b][start + i] == accepted[i]);
            } else {
                let d = unit[i - flushed];
                assert(d == pending[i - flushed]);
                assert(m[b][start + i] == 0xFFu8);
                assert(m2[b][start + i] == m[b][start + i] & d);
                assert(0xFFu8 & d == d) by (bit_vector);
            }
        }
        assert forall|i: int| start + accepted.len() <= i < m2[b].len() implies #[trigger] m2[b][i]
            == 0xFFu8 by {
            assert(m[b][i] == 0xFFu8);
            if i < start + flushed + unit.len() {
                let d = unit[i - start - flushed];
                assert(d == 0xFFu8);
                assert(m2[b][i] == m[b][i] & d);
                assert(0xFFu8 & 0xFFu8 == 0xFFu8) by (bit_vector);
            }
        }
    } else {
        assert forall|i: int| 0 <= i < accepted.len() implies m2[b][start + i] == accepted[i] by {
            assert(m[b][start + i] == accepted[i]);
        }
    }
    lemma_frame(m, m2, g, b, start + flushed, start + g.spec_align(accepted.len() as int), location, 0);
    assert(payload_at(m2, g, location, accepted.len() as int) =~= accepted);
}

/// The file lays claim to the object at `x`: it is its name object or one
/// of its data objects.
pub open spec fn claimed_by(r: FileRecord, x: ObjectLocation) -> bool {
    x == r.name_at || exists|j: int| 0 <= j < r.chunks.len() && (#[trigger] r.chunks[j]).at == x
}

/// The structure `a` with the last object of block `b` finalized as the
/// entry of the file `r`.
pub open spec fn with_entry(a: Model, b: int, k: int, last: ObjectInfo, r: FileRecord) -> Model {
    Model {
        layout: with_tail(a, b, k, last).layout,
        records: a.records.insert(last.location, r),
        owner: a.owner.union_prefer_right(
            Map::new(|x: ObjectLocation| claimed_by(r, x), |x: ObjectLocation| last.location),
        ),
    }
}

/// The structure `a2` has the entries of `a`, for the same files, and
/// object number `k` of block `b` as one more.
pub open spec fn added_entry(a: Model, a2: Model, b: int, k: int) -> bool {
    &&& is_entry(a2.layout, b, k)
    &&& !is_entry(a.layout, b, k)
    &&& forall|b2: int, i: int| #[trigger]
        is_entry(a2.layout, b2, i) && !(b2 == b && i == k) ==> is_entry(a.layout, b2, i)
            && a2.layout[b2].objects[i] == a.layout[b2].objects[i]
            && a2.records[a2.layout[b2].objects[i].location]
            == a.records[a.layout[b2].objects[i].location]
    &&& forall|b2: int, i: int| #[trigger] is_entry(a.layout, b2, i) ==> is_entry(a2.layout, b2, i)
}

/// Finalizing a metadata object makes it the entry of the file whose name
/// object and data objects it points to. These were written before and
/// belong to no other file.
pub proof fn lemma_refines_entry(
    m: Contents,
    m2: Contents,
    g: Geometry,
    a: Model,
    b: int,
    k: int,
    last: ObjectInfo,
    r: FileRecord,
)
    requires
        refines(m, g, a),
        shaped(m2, g),
        0 <= b < g.block_count,
        a.layout[b].kind == BlockType::Metadata,
        0 <= k == a.layout[b].objects.len() - 1,
        a.layout[b].objects[k].header.state == ObjectState::Allocated,
        same_outside(m, m2, b, start_of(g, a.layout[b].objects, k), g.block_size as int),
        step_at(m2, g, place_of(g, b, a.layout[b].objects, k)) == Step::Object(last),
        last.header.state == ObjectState::Finalized,
        last.header.fits(g, last.location.offset as int),
        blank_from(m2[b], last.end(g)),
        last.header.object_size == spec_metadata_bytes(g),
        payload_at(m2, g, last.location, spec_metadata_bytes(g)) == metadata_encoding(
            g,
            path_hash(r.name),
            r.name_at,
            r.first_link(),
        ),
        r.live,
        r.chunks.len() <= spec_max_hops(g),
        name_held(m, g, a.layout, r),
        forall|j: int| 0 <= j < r.chunks.len() ==> #[trigger] chunk_held(m, g, a.layout, r, j),
        crate::model::state::apart(r),
        forall|x: ObjectLocation| claimed_by(r, x) ==> !a.owner.dom().contains(x),
    ensures
        refines(m2, g, with_entry(a, b, k, last, r)),
        preserves(m, m2, g, a.layout, with_entry(a, b, k, last, r).layout),
        added_entry(a, with_entry(a, b, k, last, r), b, k),
        with_entry(a, b, k, last, r).layout[b].objects[k] == last,
{
    reveal(refines);
    lemma_align(g, 0);
    let a2 = with_entry(a, b, k, last, r);
    let lo = start_of(g, a.layout[b].objects, k);
    let hi = g.block_size as int;
    lemma_tail_layout(m, m2, g, a, b, k, last);
    lemma_preserves(m, m2, g, a.layout, a2.layout, b, lo, hi, b, k);
    let claims = Map::new(|x: ObjectLocation| claimed_by(r, x), |x: ObjectLocation| last.location);
    assert forall|x: ObjectLocation| #[trigger] a.owner.dom().contains(x) implies a2.owner.dom().contains(
        x,
    ) && a2.owner[x] == a.owner[x] by {
        assert(!claimed_by(r, x));
    }
    // The new entry.
    assert(holds(a.layout, BlockType::Data, r.name_at, r.name_index));
    assert(is_closed(a.layout[r.name_at.block as int].objects[r.name_index]));
    lemma_object_kept(
        m,
        m2,
        g,
        a.layout,
        a2.layout,
        b,
        lo,
        hi,
        b,
        k,
        BlockType::Data,
        r.name_at,
        r.name_index,
    );
    assert(claimed_by(r, r.name_at));
    assert(claims.dom().contains(r.name_at));
    assert(name_ok(m2, g, a2, last.location, r));
    assert forall|j: int| 0 <= j < r.chunks.len() implies #[trigger] chunk_ok(
        m2,
        g,
        a2,
        last.location,
        r,
        j,
    ) by {
        assert(chunk_held(m, g, a.layout, r, j));
        let c = r.chunks[j];
        assert(is_closed(a.layout[c.at.block as int].objects[c.index]));
        lemma_object_kept(
            m,
            m2,
            g,
            a.layout,
            a2.layout,
            b,
            lo,
            hi,
            b,
            k,
            BlockType::Data,
            c.at,
            c.index,
        );
        assert(claimed_by(r, c.at));
        assert(claims.dom().contains(c.at));
    }
    assert(record_ok(m2, g, a2, last, r));
    // The entries that were there.
    assert forall|b2: int, i: int| #[trigger] is_entry(a2.layout, b2, i) && !(b2 == b && i
        == k) implies is_entry(a.layout, b2, i) && a2.layout[b2].objects[i]
        == a.layout[b2].objects[i] && a2.records[a2.layout[b2].objects[i].location]
        == a.records[a.layout[b2].objects[i].location] && record_ok(
        m2,
        g,
        a2,
        a2.layout[b2].objects[i],
        a2.records[a2.layout[b2].objects[i].location],
    ) && a2.records.dom().contains(a2.layout[b2].objects[i].location) by {
        assert(a2.layout[b2].objects[i] == a.layout[b2].objects[i]);
        assert(a2.layout[b2].kind == a.layout[b2].kind);
        let info = a.layout[b2].objects[i];
        assert(is_entry(a.layout, b2, i));
        let old = a.records[info.location];
        assert(record_ok(m, g, a, info, old));
        lemma_held_header(m, g, a.layout, b2, i);
        if b2 == b {
            lemma_layout_order(m, g, b, a.layout[b], i, k);
        }
        assert(info.location != last.location);
        assert(is_closed(a.layout[old.name_at.block as int].objects[old.name_index]));
        if old.live {
            assert forall|j: int| 0 <= j < old.chunks.len() implies !((
            #[trigger] old.chunks[j]).at.block == b && old.chunks[j].index == k) by {
                assert(chunk_ok(m, g, a, info.location, old, j));
                assert(is_closed(
                    a.layout[old.chunks[j].at.block as int].objects[old.chunks[j].index],
                ));
            }
        }
        lemma_record_frame(m, m2, g, a, a2, b, lo, hi, b, k, b2, i, old);
    }
    assert(entries_ok(m2, g, a2)) by {
        assert forall|b2: int, i: int|
            0 <= b2 < a2.layout.len() && 0 <= i < a2.layout[b2].objects.len()
                && a2.layout[b2].kind == BlockType::Metadata && (
            #[trigger] a2.layout[b2].objects[i]).header.state
                == ObjectState::Finalized implies a2.records.dom().contains(
            a2.layout[b2].objects[i].location,
        ) && record_ok(
            m2,
            g,
            a2,
            a2.layout[b2].objects[i],
            a2.records[a2.layout[b2].objects[i].location],
        ) by {
            assert(is_entry(a2.layout, b2, i));
        }
    }
    assert forall|b2: int, i: int| #[trigger] is_entry(a.layout, b2, i) implies is_entry(
        a2.layout,
        b2,
        i,
    ) by {
        assert(is_closed(a.layout[b2].objects[i]));
        assert(a2.layout[b2].objects[i] == a.layout[b2].objects[i]);
        assert(a2.layout[b2].kind == a.layout[b2].kind);
    }
    assert forall|x: ObjectLocation| #[trigger] a2.owner.dom().contains(x) implies placed(
        a2.layout,
        BlockType::Data,
        x,
    ) by {
        if a.owner.dom().contains(x) {
            assert(placed(a.layout, BlockType::Data, x));
            let index = choose|index: int| holds(a.layout, BlockType::Data, x, index);
            assert(a2.layout[x.block as int].objects[index].location == x);
            assert(a2.layout[x.block as int].kind == a.layout[x.block as int].kind);
            assert(holds(a2.layout, BlockType::Data, x, index));
        } else {
            assert(claimed_by(r, x));
            if x == r.name_at {
                assert(holds(a2.layout, BlockType::Data, x, r.name_index));
            } else {
                let j = choose|j: int| 0 <= j < r.chunks.len() && (#[trigger] r.chunks[j]).at == x;
                assert(chunk_ok(m2, g, a2, last.location, r, j));
                assert(holds(a2.layout, BlockType::Data, x, r.chunks[j].index));
            }
        }
    }
}

/// With one more entry, for `path`, a scan has the hits it had, and the new
/// entry as a hit for `path`.
pub proof fn lemma_hits_added(
    m: Contents,
    m2: Contents,
    g: Geometry,
    a: Model,
    a2: Model,
    b: int,
    k: int,
    path: Seq<u8>,
)
    requires
        refines(m, g, a),
        refines(m2, g, a2),
        added_entry(a, a2, b, k),
        a2.records[a2.layout[b].objects[k].location].live,
        a2.records[a2.layout[b].objects[k].location].name == path,
    ensures
        forall|p: Seq<u8>, b2: int, i: int|
            is_hit(m2, g, a2.layout, p, b2, i) <==> #[trigger] is_hit(m, g, a.layout, p, b2, i)
                || (p == path && b2 == b && i == k),
        forall|p: Seq<u8>, b2: int, i: int| #[trigger]
            is_hit(m, g, a.layout, p, b2, i) ==> a2.layout[b2].objects[i].location
                == a.layout[b2].objects[i].location && contents_at(
                m2,
                g,
                a.layout[b2].objects[i].location,
            ) == contents_at(m, g, a.layout[b2].objects[i].location),
        contents_at(m2, g, a2.layout[b].objects[k].location) == Some(
            a2.records[a2.layout[b].objects[k].location].contents(),
        ),
{
    reveal(refines);
    assert forall|p: Seq<u8>, b2: int, i: int|
        (is_hit(m2, g, a2.layout, p, b2, i) <==> #[trigger] is_hit(m, g, a.layout, p, b2, i) || (p
            == path && b2 == b && i == k)) && (is_hit(m, g, a.layout, p, b2, i)
            ==> a2.layout[b2].objects[i].location == a.layout[b2].objects[i].location
            && contents_at(m2, g, a.layout[b2].objects[i].location) == contents_at(
            m,
            g,
            a.layout[b2].objects[i].location,
        )) by {
        lemma_hit_iff(m, g, a, p, b2, i);
        lemma_hit_iff(m2, g, a2, p, b2, i);
        if is_entry(a.layout, b2, i) {
            assert(is_entry(a2.layout, b2, i));
        }
        if is_entry(a2.layout, b2, i) && !(b2 == b && i == k) {
            assert(is_entry(a.layout, b2, i));
        }
        if is_hit(m, g, a.layout, p, b2, i) {
            lemma_entry_contents(m, g, a, b2, i);
            lemma_entry_contents(m2, g, a2, b2, i);
        }
    }
    lemma_entry_contents(m2, g, a2, b, k);
}

/// The first hit of a scan for `p`, which is another path than `path` or
/// comes before object number `k` of block `b`.
pub open spec fn early_first_hit(
    m: Contents,
    g: Geometry,
    l: Seq<BlockLayout>,
    path: Seq<u8>,
    p: Seq<u8>,
    b: int,
    k: int,
    b1: int,
    i1: int,
) -> bool {
    is_first_hit(m, g, l, p, b1, i1) && (p != path || scanned_before(b1, i1, b, k))
}

/// What one lookup gives after a hit was added to a scan.
pub proof fn lemma_lookup_added(
    m: Contents,
    m2: Contents,
    g: Geometry,
    l: Seq<BlockLayout>,
    l2: Seq<BlockLayout>,
    b: int,
    k: int,
    path: Seq<u8>,
    p: Seq<u8>,
)
    requires
        forall|b2: int, i: int|
            is_hit(m2, g, l2, p, b2, i) <==> #[trigger] is_hit(m, g, l, p, b2, i) || (p == path
                && b2 == b && i == k),
        forall|b2: int, i: int| #[trigger]
            is_hit(m, g, l, p, b2, i) ==> l2[b2].objects[i].location == l[b2].objects[i].location,
    ensures
        p != path ==> lookup_in(m2, g, l2, p) == lookup_in(m, g, l, p),
        p == path ==> lookup_in(m2, g, l2, p) == lookup_in(m, g, l, p) || lookup_in(
            m2,
            g,
            l2,
            p,
        ) == Some(l2[b].objects[k].location),
        p == path && (forall|b2: int, i: int|
            scanned_before(b2, i, b, k) ==> !#[trigger] is_hit(m, g, l, p, b2, i))
            ==> lookup_in(m2, g, l2, p) == Some(l2[b].objects[k].location),
        lookup_in(m, g, l, p) is Some ==> lookup_in(m2, g, l2, p) is Some,
{
    if exists|b1: int, i1: int| early_first_hit(m, g, l, path, p, b, k, b1, i1) {
        let (b1, i1) = choose|b1: int, i1: int| early_first_hit(m, g, l, path, p, b, k, b1, i1);
        assert(is_hit(m, g, l, p, b1, i1));
        assert forall|b2: int, i: int| scanned_before(b2, i, b1, i1) implies !#[trigger] is_hit(
            m2,
            g,
            l2,
            p,
            b2,
            i,
        ) by {
            assert(!is_hit(m, g, l, p, b2, i));
        }
        lemma_first_hit_unique(m, g, l, p, b1, i1);
        lemma_first_hit_unique(m2, g, l2, p, b1, i1);
    } else if p != path {
        if exists|b2: int, i: int| is_first_hit(m2, g, l2, p, b2, i) {
            let (b2, i) = choose|b2: int, i: int| is_first_hit(m2, g, l2, p, b2, i);
            assert(is_hit(m, g, l, p, b2, i));
            let first = lemma_first_hit_exists(m, g, l, p, b2, i);
            assert(early_first_hit(m, g, l, path, p, b, k, first.0, first.1));
        }
        if exists|b2: int, i: int| is_first_hit(m, g, l, p, b2, i) {
            let (b2, i) = choose|b2: int, i: int| is_first_hit(m, g, l, p, b2, i);
            assert(early_first_hit(m, g, l, path, p, b, k, b2, i));
        }
    } else {
        let was = is_hit(m, g, l, p, b, k);
        assert(is_hit(m2, g, l2, p, b, k));
        assert forall|b2: int, i: int| scanned_before(b2, i, b, k) implies !#[trigger] is_hit(
            m2,
            g,
            l2,
            p,
            b2,
            i,
        ) by {
            let there = is_hit(m, g, l, p, b2, i);
            if is_hit(m, g, l, p, b2, i) {
                let first = lemma_first_hit_exists(m, g, l, p, b2, i);
                assert(scanned_before(first.0, first.1, b, k));
                assert(early_first_hit(m, g, l, path, p, b, k, first.0, first.1));
            }
        }
        lemma_first_hit_unique(m2, g, l2, p, b, k);
        if lookup_in(m, g, l, p) is Some {
            let (b2, i) = choose|b2: int, i: int| is_first_hit(m, g, l, p, b2, i);
        }
    }
    if p == path && (forall|b2: int, i: int|
        scanned_before(b2, i, b, k) ==> !#[trigger] is_hit(m, g, l, p, b2, i)) {
        if exists|b1: int, i1: int| early_first_hit(m, g, l, path, p, b, k, b1, i1) {
            let (b1, i1) = choose|b1: int, i1: int|
                early_first_hit(m, g, l, path, p, b, k, b1, i1);
            assert(!is_hit(m, g, l, p, b1, i1));
        }
    }
}

/// A lookup that finds something finds a hit.
pub proof fn lemma_lookup_is_hit(
    m: Contents,
    g: Geometry,
    l: Seq<BlockLayout>,
    p: Seq<u8>,
) -> (at: (int, int))
    requires
        lookup_in(m, g, l, p) is Some,
    ensures
        is_first_hit(m, g, l, p, at.0, at.1),
        lookup_in(m, g, l, p) == Some(l[at.0].objects[at.1].location),
{
    choose|b: int, i: int| is_first_hit(m, g, l, p, b, i)
}

/// A new entry for `path` changes nothing for any other path. Under
/// `path`, a scan finds what it found, if it finds that first; else it
/// finds the new file.
pub proof fn lemma_files_added(
    m: Contents,
    m2: Contents,
    g: Geometry,
    a: Model,
    a2: Model,
    b: int,
    k: int,
    path: Seq<u8>,
    data: Seq<u8>,
)
    requires
        refines(m, g, a),
        refines(m2, g, a2),
        added_entry(a, a2, b, k),
        a2.records[a2.layout[b].objects[k].location].live,
        a2.records[a2.layout[b].objects[k].location].name == path,
        a2.records[a2.layout[b].objects[k].location].contents() == data,
    ensures
        files(m2, g) == files(m, g) || files(m2, g) == files(m, g).insert(path, data),
        (forall|b2: int, i: int|
            scanned_before(b2, i, b, k) ==> !#[trigger] is_hit(m, g, a.layout, path, b2, i))
            ==> files(m2, g) == files(m, g).insert(path, data),
{
    reveal(refines);
    lemma_layout_unique(m, g, a.layout);
    lemma_layout_unique(m2, g, a2.layout);
    lemma_hits_added(m, m2, g, a, a2, b, k, path);
    lemma_files_added_core(m, m2, g, a.layout, a2.layout, b, k, path, data);
}

/// The files after a hit was added to a scan.
pub proof fn lemma_files_added_core(
    m: Contents,
    m2: Contents,
    g: Geometry,
    l: Seq<BlockLayout>,
    l2: Seq<BlockLayout>,
    b: int,
    k: int,
    path: Seq<u8>,
    data: Seq<u8>,
)
    requires
        layout_of(m, g) == l,
        layout_of(m2, g) == l2,
        forall|p: Seq<u8>, b2: int, i: int|
            is_hit(m2, g, l2, p, b2, i) <==> #[trigger] is_hit(m, g, l, p, b2, i) || (p == path
                && b2 == b && i == k),
        forall|p: Seq<u8>, b2: int, i: int| #[trigger]
            is_hit(m, g, l, p, b2, i) ==> l2[b2].objects[i].location == l[b2].objects[i].location
                && contents_at(m2, g, l[b2].objects[i].location) == contents_at(
                m,
                g,
                l[b2].objects[i].location,
            ),
        contents_at(m2, g, l2[b].objects[k].location) == Some(data),
    ensures
        files(m2, g) == files(m, g) || files(m2, g) == files(m, g).insert(path, data),
        (forall|b2: int, i: int|
            scanned_before(b2, i, b, k) ==> !#[trigger] is_hit(m, g, l, path, b2, i)) ==> files(
            m2,
            g,
        ) == files(m, g).insert(path, data),
{
    let f = files(m, g);
    let f2 = files(m2, g);
    let fresh = l2[b].objects[k].location;
    assert forall|b2: int, i: int|
        is_hit(m2, g, l2, path, b2, i) <==> #[trigger] is_hit(m, g, l, path, b2, i) || (path
            == path && b2 == b && i == k) by {
        let there = is_hit(m, g, l, path, b2, i);
    }
    assert forall|b2: int, i: int| #[trigger] is_hit(m, g, l, path, b2, i) implies l2[b2].objects[i].location
        == l[b2].objects[i].location by {}
    lemma_lookup_added(m, m2, g, l, l2, b, k, path, path);
    let same = lookup_in(m2, g, l2, path) == lookup_in(m, g, l, path);
    let target = if same {
        f
    } else {
        f.insert(path, data)
    };
    assert forall|p: Seq<u8>| (#[trigger] f2.dom().contains(p) <==> target.dom().contains(p)) && (
    f2.dom().contains(p) ==> f2[p] == target[p]) by {
        lemma_lookup_added(m, m2, g, l, l2, b, k, path, p);
        assert(f2.dom().contains(p) <==> lookup_in(m2, g, l2, p) is Some);
        assert(f.dom().contains(p) <==> lookup_in(m, g, l, p) is Some);
        if lookup_in(m, g, l, p) is Some {
            let at = lemma_lookup_is_hit(m, g, l, p);
            assert(is_hit(m, g, l, p, at.0, at.1));
            assert(contents_at(m2, g, l[at.0].objects[at.1].location) == contents_at(
                m,
                g,
                l[at.0].objects[at.1].location,
            ));
        }
        if p == path && !same {
            assert(lookup_in(m2, g, l2, p) == Some(fresh));
            assert(f2[p] == data);
        }
    }
    assert(f2 =~= target);
    if forall|b2: int, i: int|
        scanned_before(b2, i, b, k) ==> !#[trigger] is_hit(m, g, l, path, b2, i) {
        assert(lookup_in(m2, g, l2, path) == Some(fresh));
        assert(f2[path] == data);
        if same {
            assert(f.dom().contains(path));
            assert(f[path] == data);
            assert(f =~= f.insert(path, data));
        }
    }
}

/// From step number `from` of the trace on, the medium was consistent at
/// every step, and held either the files `before` or the files `after`:
/// whenever power was lost since, one of the two is what is found.
pub open spec fn crash_safe(
    trace: Seq<Contents>,
    from: int,
    g: Geometry,
    before: Map<Seq<u8>, Seq<u8>>,
    after: Map<Seq<u8>, Seq<u8>>,
) -> bool {
    forall|i: int|
        from <= i < trace.len() ==> consistent(#[trigger] trace[i], g) && (files(trace[i], g)
            == before || files(trace[i], g) == after)
}

/// From step number `from` of the trace on, the medium held the files
/// `before` at every step but the last: what was done took effect with the
/// last step, if at all.
pub open spec fn quiet_but_last(
    trace: Seq<Contents>,
    from: int,
    g: Geometry,
    before: Map<Seq<u8>, Seq<u8>>,
) -> bool {
    forall|i: int| from <= i < trace.len() - 1 ==> files(#[trigger] trace[i], g) == before
}

/// Steps that took no effect, followed by steps that took effect with the
/// last, took effect with the last.
pub proof fn lemma_quiet_join(
    earlier: Seq<Contents>,
    later: Seq<Contents>,
    from: int,
    g: Geometry,
    before: Map<Seq<u8>, Seq<u8>>,
)
    requires
        0 <= from <= earlier.len() <= later.len(),
        later.take(earlier.len() as int) == earlier,
        crash_safe(earlier, from, g, before, before),
        quiet_but_last(later, earlier.len() as int, g, before),
    ensures
        quiet_but_last(later, from, g, before),
{
    assert forall|i: int| from <= i < later.len() - 1 implies files(#[trigger] later[i], g)
        == before by {
        if i < earlier.len() {
            assert(later.take(earlier.len() as int)[i] == later[i]);
            assert(files(earlier[i], g) == before);
        }
    }
}

/// A trace that was safe up to a step, and is safe from that step on, is
/// safe on the whole.
pub proof fn lemma_safe_join(
    earlier: Seq<Contents>,
    later: Seq<Contents>,
    from: int,
    g: Geometry,
    before: Map<Seq<u8>, Seq<u8>>,
    after: Map<Seq<u8>, Seq<u8>>,
    mid_before: Map<Seq<u8>, Seq<u8>>,
    mid_after: Map<Seq<u8>, Seq<u8>>,
)
    requires
        0 <= from <= earlier.len() <= later.len(),
        later.take(earlier.len() as int) == earlier,
        crash_safe(earlier, from, g, before, after),
        crash_safe(later, earlier.len() as int, g, mid_before, mid_after),
        mid_before == before || mid_before == after,
        mid_after == before || mid_after == after,
    ensures
        crash_safe(later, from, g, before, after),
{
    assert forall|i: int| from <= i < later.len() implies consistent(#[trigger] later[i], g) && (
    files(later[i], g) == before || files(later[i], g) == after) by {
        if i < earlier.len() {
            assert(later.take(earlier.len() as int)[i] == later[i]);
            assert(earlier[i] == later[i]);
        }
    }
}

/// One more safe step keeps the trace safe.
pub proof fn lemma_safe_push(
    trace: Seq<Contents>,
    from: int,
    g: Geometry,
    before: Map<Seq<u8>, Seq<u8>>,
    after: Map<Seq<u8>, Seq<u8>>,
    next: Contents,
)
    requires
        0 <= from,
        crash_safe(trace, from, g, before, after),
        consistent(next, g),
        files(next, g) == before || files(next, g) == after,
    ensures
        crash_safe(trace.push(next), from, g, before, after),
{
    assert forall|i: int| from <= i < trace.push(next).len() implies consistent(
        #[trigger] trace.push(next)[i],
        g,
    ) && (files(trace.push(next)[i], g) == before || files(trace.push(next)[i], g) == after) by {
        if i < trace.len() {
            assert(trace.push(next)[i] == trace[i]);
        }
    }
}

/// A trace is safe from its end on.
pub proof fn lemma_safe_none(
    trace: Seq<Contents>,
    g: Geometry,
    before: Map<Seq<u8>, Seq<u8>>,
    after: Map<Seq<u8>, Seq<u8>>,
)
    ensures
        crash_safe(trace, trace.len() as int, g, before, after),
{
}

/// Steps that hold the files that were held before are safe whatever the
/// files may become.
pub proof fn lemma_safe_wider(
    trace: Seq<Contents>,
    from: int,
    g: Geometry,
    before: Map<Seq<u8>, Seq<u8>>,
    after: Map<Seq<u8>, Seq<u8>>,
)
    requires
        crash_safe(trace, from, g, before, before),
    ensures
        crash_safe(trace, from, g, before, after),
        crash_safe(trace, from, g, after, before),
{
}

/// While an object is being written, whatever is programmed into its
/// payload leaves the medium consistent and its files as they are.
pub proof fn lemma_refines_payload(
    m: Contents,
    m2: Contents,
    g: Geometry,
    a: Model,
    b: int,
    k: int,
    lo: int,
    hi: int,
)
    requires
        refines(m, g, a),
        0 <= b < g.block_count,
        a.layout[b].kind != BlockType::Undefined,
        0 <= k == a.layout[b].objects.len() - 1,
        a.layout[b].objects[k].header.state == ObjectState::Allocated,
        !a.layout[b].objects[k].header.fits(g, a.layout[b].objects[k].location.offset as int),
        payload_start(g, a.layout[b].objects[k].location) <= lo,
        same_outside(m, m2, b, lo, hi),
    ensures
        refines(m2, g, a),
        files(m2, g) == files(m, g),
        consistent(m2, g),
        preserves(m, m2, g, a.layout, a.layout),
        header_at(m2, g, a.layout[b].objects[k].location) == header_at(
            m,
            g,
            a.layout[b].objects[k].location,
        ),
{
    reveal(refines);
    lemma_align(g, 0);
    let info = a.layout[b].objects[k];
    lemma_held_header(m, g, a.layout, b, k);
    lemma_layout_bounds(m, g, b, a.layout[b], k);
    assert(shaped(m2, g)) by {
        assert forall|j: int| 0 <= j < m2.len() implies (#[trigger] m2[j]).len()
            == g.block_size by {
            assert(m[j].len() == m2[j].len());
        }
    }
    assert(block_laid_out(m, g, b, a.layout[b]));
    assert(step_at(m, g, place_of(g, b, a.layout[b].objects, k)) == Step::Object(info));
    lemma_step_frame(m, m2, g, b, lo, hi, info.location);
    lemma_frame(m, m2, g, b, lo, hi, info.location, 0);
    crate::medium::lemma_same_outside_wider(
        m,
        m2,
        b,
        lo,
        hi,
        start_of(g, a.layout[b].objects, k),
        if hi <= g.block_size {
            g.block_size as int
        } else {
            hi
        },
    );
    assert(same_outside(m, m2, b, start_of(g, a.layout[b].objects, k), g.block_size as int));
    lemma_refines_tail(m, m2, g, a, b, k, info);
    let a2 = with_tail(a, b, k, info);
    assert(with_last(a.layout[b].objects, k, info) =~= a.layout[b].objects);
    assert(a2.layout =~= a.layout);
    assert(a2 == a);
    lemma_files_same(m, m2, g, a, a);
}

} // verus!
