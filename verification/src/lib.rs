//! A log-structured object store for raw, block-erasable flash.
//!
//! Files are kept as chains of objects that are only ever appended to the
//! blocks of the medium. Each step of an operation is a single write, and
//! the order of the writes is chosen so that a loss of power between any two
//! of them leaves every file either as it was or as it was meant to become.

use vstd::prelude::*;
use vstd::slice::slice_subrange;
use vstd::string::StringSliceAdditionalSpecFns;

use crate::diag::Counters;
use crate::ll::blocks::{
    block_laid_out, end_of, laid_out, lemma_layout_bounds, place_of, start_of, BlockInfo,
    BlockLayout, BlockOps, BlockType, HEADER_BYTES,
};
use crate::ll::bytes::{bytes_equal, digit_le};
use crate::ll::objects::{
    chunk_at, hash_path, lemma_parse_link_encoding, lemma_step_object, link_encoding,
    link_into_bytes, metadata_at, metadata_bytes, metadata_encoding, path_hash, payload_at,
    read_rest, spec_metadata_bytes, step_at, untouched, DataObjectHeader, MetadataObjectHeader,
    ObjectHeader, ObjectInfo, ObjectIterator, ObjectLocation, ObjectOps, ObjectReader, ObjectState,
    Step, HASH_BYTES,
};
use crate::ll::writer::{closing_steps, state_set, ObjectWriter};
use crate::medium::{Contents, Geometry, StorageMedium};
use crate::model::{
    chain_data, files, is_first_hit, is_hit, layout_of, lemma_first_hit_exists,
    lemma_first_hit_unique, lemma_layout_unique, lookup, lookup_in, matches_at, parses,
    scanned_before, spec_max_hops,
};
use crate::model::erase::{
    candidate, erased, in_use, is_victim, lemma_live_bound, lemma_live_entry, lemma_live_name,
    lemma_refines_erase, live_bytes, live_in, reaches,
};
use crate::model::listing::{
    lemma_names_all, lemma_names_end, lemma_names_next_block, lemma_names_skip, lemma_names_take,
    lemma_not_looked_up, names_from,
};
use crate::model::marks::{
    clear_of, entries_shrink, first_tenant, lemma_added_after_same, lemma_extents_deleted,
    lemma_extents_start, lemma_extents_twice, lemma_marked_join, lemma_only_marks_join,
    lemma_shrink_entry, lemma_shrink_name, lemma_shrink_same, lemma_shrink_twice,
    lemma_steps_only_mark, lemma_tenants_added, lemma_tenants_of_entries, lemma_tenants_twice,
    marked, marking_steps, only_marks, places_of, same_extents, tenants_shrink,
};
use crate::model::object::{
    closing, enterable, files_with, finished, lemma_begin, lemma_closing, lemma_enterable_kept,
    lemma_pending_chunk, lemma_pending_name, lemma_stored_after_quiet, lemma_vacant_unclaimed,
    object, open_at, pending, stored, with_chunk,
};
use crate::model::remove::{
    files_left, hits_kept, hits_left, lemma_chunk_data, lemma_delete_entry, lemma_delete_entry_hits,
    lemma_delete_name, lemma_delete_name_hits, lemma_delete_object, lemma_files_by_hits,
    lemma_files_left, lemma_hits_kept_twice, lemma_hits_left_all, lemma_hits_left_step,
    lemma_hits_of_entries, lemma_orphan, lemma_same_place, name_deleted, object_deleted, still_hit,
};
use crate::model::room::{
    cache_after, cache_after_chunks, cache_after_contents, cache_after_store, cache_of, chosen,
    chunk_count, chunk_size, filled, fresh_cache, has_room, lemma_chosen_unique, lemma_chunk_count,
    lemma_chunk_size, lemma_room_for_spares, lemma_spares_bound, next_start, spare, spares,
    spec_max_chunk, takes,
};
use crate::model::state::{
    apart, chunk_held, consistent, held, holds, is_entry, lemma_entry_contents,
    lemma_entry_metadata, lemma_held_header, lemma_held_reader, lemma_hit_iff, lemma_refines_facts,
    refines, FileRecord, Model,
};
use crate::model::steps::{
    added_entry, crash_safe, in_progress, lemma_files_same, lemma_preserves_twice,
    lemma_progress_write, lemma_quiet_join, lemma_refines_claim, lemma_refines_payload,
    lemma_safe_join, lemma_safe_none, lemma_safe_push, lemma_safe_wider, payload_start, preserves,
    quiet_but_last, same_entries, with_kind,
};

pub mod actions;
pub mod device;
pub mod diag;
pub mod gc;
pub mod ll;
pub mod measurements;
pub mod medium;
pub mod model;

verus! {

/// Why a storage operation failed.
#[derive(Clone, Copy, PartialEq, Eq, Structural, Debug)]
pub enum StorageError {
    /// No file is stored under the path.
    NotFound,
    /// An object is in a state in which the operation is not legal.
    InvalidState,
    /// Bytes on the medium decode to no valid value.
    Corrupted,
    /// No block has enough contiguous free space.
    InsufficientSpace,
    /// The medium failed or refused the access.
    Io,
}

/// A mounted medium: the medium itself, and what the engine remembers of
/// each of its blocks.
pub struct Storage<M: StorageMedium> {
    medium: M,
    blocks: Vec<BlockInfo>,
    model: Ghost<Model>,
}

/// A walk through the directory: it stands before the metadata object of
/// the file that it comes to next.
pub struct Directory {
    block: usize,
    offset: usize,
    index: Ghost<int>,
}

impl StorageError {
    /// The error tells of the medium: it could not be read or written, or
    /// holds what cannot be read as the engine's, or an object in a state
    /// in which it cannot be used.
    pub open spec fn is_fault(self) -> bool {
        self == StorageError::Io || self == StorageError::Corrupted || self
            == StorageError::InvalidState
    }
}

/// Object number `i` of block `b` is the one finalized metadata object that
/// names the file `path`.
pub open spec fn only_hit(
    m: Contents,
    g: Geometry,
    layout: Seq<BlockLayout>,
    path: Seq<u8>,
    b: int,
    i: int,
) -> bool {
    forall|b2: int, i2: int| #[trigger] is_hit(m, g, layout, path, b2, i2) <==> b2 == b && i2 == i
}

/// With step number `entered - 1` of the trace, object number `i` of block
/// `b` was finalized as the metadata object of `path`: until then the
/// medium held the files `before`, and every later step marked an object
/// deleted.
pub open spec fn entered_then_marked(
    trace: Seq<Contents>,
    from: int,
    entered: int,
    g: Geometry,
    before: Map<Seq<u8>, Seq<u8>>,
    path: Seq<u8>,
    b: int,
    i: int,
) -> bool {
    &&& 0 <= from <= entered <= trace.len()
    &&& 0 < entered
    &&& forall|k: int| from <= k < entered - 1 ==> files(#[trigger] trace[k], g) == before
    &&& is_hit(trace[entered - 1], g, layout_of(trace[entered - 1], g), path, b, i)
    &&& only_marks(trace, entered, g)
}

/// The operation failed for want of room.
pub open spec fn lacks_room<T>(res: Result<T, StorageError>) -> bool {
    res matches Err(e) && e == StorageError::InsufficientSpace
}

/// What is remembered of the blocks keeps inside them.
pub open spec fn cache_wf(blocks: Seq<BlockInfo>, g: Geometry) -> bool {
    &&& blocks.len() == g.block_count
    &&& forall|b: int|
        0 <= b < blocks.len() ==> HEADER_BYTES <= (#[trigger] blocks[b]).used <= g.block_size
}

/// Finds the block that an object with `payload` bytes of payload goes to,
/// and takes note of the room that the object takes there. Tells whether
/// a block was found.
fn place(
    blocks: &mut Vec<BlockInfo>,
    g: &Geometry,
    avoid: Option<usize>,
    kind: BlockType,
    payload: usize,
) -> (found: bool)
    requires
        g.valid(),
        cache_wf(old(blocks)@, *g),
        kind != BlockType::Undefined,
    ensures
        cache_wf(final(blocks)@, *g),
        match cache_after(old(blocks)@, *g, avoid, kind, payload as int) {
            Some(next) => found && final(blocks)@ == next,
            None => !found && final(blocks)@ == old(blocks)@,
        },
{
    proof {
        crate::medium::lemma_align(*g, 0);
    }
    let header = g.object_header_bytes();
    if payload > g.block_size - HEADER_BYTES - header {
        return false;
    }
    let need = header + payload;
    let mut b: usize = 0;
    while b < g.block_count
        invariant
            b <= g.block_count,
            g.valid(),
            blocks@ == old(blocks)@,
            cache_wf(blocks@, *g),
            need == g.spec_object_header_bytes() + payload,
            payload <= g.block_size - HEADER_BYTES - g.spec_object_header_bytes(),
            forall|x: int| 0 <= x < b ==> !takes(blocks@, *g, avoid, kind, payload as int, x),
        decreases g.block_count - b,
    {
        let info = blocks[b];
        if info.kind == kind && need <= g.block_size - info.used && !is_avoided(avoid, b) {
            let used = g.align(info.used + need);
            proof {
                crate::medium::lemma_align(*g, 0);
                crate::medium::lemma_aligned_sum(*g, g.block_size as int, 0);
                crate::medium::lemma_round_bound(*g, g.block_size as int, info.used + need);
                lemma_chosen_unique(blocks@, *g, avoid, kind, payload as int, b as int);
            }
            blocks.set(b, BlockInfo { kind, used });
            proof {
                assert(blocks@ =~= filled(old(blocks)@, *g, kind, payload as int, b as int));
            }
            return true;
        }
        b += 1;
    }
    let mut u: usize = 0;
    while u < g.block_count
        invariant
            u <= g.block_count,
            g.valid(),
            blocks@ == old(blocks)@,
            cache_wf(blocks@, *g),
            kind != BlockType::Undefined,
            need == g.spec_object_header_bytes() + payload,
            payload <= g.block_size - HEADER_BYTES - g.spec_object_header_bytes(),
            forall|x: int|
                0 <= x < blocks@.len() ==> !takes(blocks@, *g, avoid, kind, payload as int, x),
            forall|x: int| 0 <= x < u ==> !spare(blocks@, avoid, x),
        decreases g.block_count - u,
    {
        if blocks[u].is_undefined() && !is_avoided(avoid, u) {
            let used = g.align(HEADER_BYTES + need);
            proof {
                crate::medium::lemma_align(*g, 0);
                crate::medium::lemma_aligned_sum(*g, g.block_size as int, 0);
                crate::medium::lemma_round_bound(*g, g.block_size as int, HEADER_BYTES + need);
                lemma_chosen_unique(blocks@, *g, avoid, kind, payload as int, u as int);
            }
            blocks.set(u, BlockInfo { kind, used });
            proof {
                assert(blocks@ =~= filled(old(blocks)@, *g, kind, payload as int, u as int));
            }
            return true;
        }
        u += 1;
    }
    false
}

/// Tells whether `block` is the block to avoid.
fn is_avoided(avoid: Option<usize>, block: usize) -> (res: bool)
    ensures
        res == (avoid == Some(block)),
{
    match avoid {
        Some(avoided) => avoided == block,
        None => false,
    }
}

/// `found` lists hits of a scan for `path`, in the order of the scan;
/// `positions` says which object of which block each of them is.
pub open spec fn hit_list(
    m: Contents,
    g: Geometry,
    layout: Seq<BlockLayout>,
    path: Seq<u8>,
    found: Seq<ObjectLocation>,
    positions: Seq<(int, int)>,
) -> bool {
    &&& found.len() == positions.len()
    &&& forall|k: int|
        0 <= k < positions.len() ==> is_hit(
            m,
            g,
            layout,
            path,
            (#[trigger] positions[k]).0,
            positions[k].1,
        ) && found[k] == layout[positions[k].0].objects[positions[k].1].location
    &&& forall|k: int, l: int|
        0 <= k < l < positions.len() ==> scanned_before(
            (#[trigger] positions[k]).0,
            positions[k].1,
            (#[trigger] positions[l]).0,
            positions[l].1,
        )
}

/// `positions` holds every hit of a scan for `path` that comes before
/// object number `index` of block `block`, and no later one.
pub open spec fn hits_up_to(
    m: Contents,
    g: Geometry,
    layout: Seq<BlockLayout>,
    path: Seq<u8>,
    positions: Seq<(int, int)>,
    block: int,
    index: int,
) -> bool {
    &&& forall|k: int|
        0 <= k < positions.len() ==> scanned_before(
            (#[trigger] positions[k]).0,
            positions[k].1,
            block,
            index,
        )
    &&& forall|b: int, i: int|
        scanned_before(b, i, block, index) && #[trigger] is_hit(m, g, layout, path, b, i)
            ==> positions.contains((b, i))
}

/// A cursor over the contents of one file.
pub struct Reader {
    current: Option<ObjectReader>,
    next: Option<ObjectLocation>,
    hops: u64,
}

/// The number of objects that the longest chain the engine follows can have.
pub fn max_hops(g: &Geometry) -> (hops: u64)
    requires
        g.valid(),
    ensures
        hops == spec_max_hops(*g),
        hops <= 0x3FFF_FFFF_0000_0001,
{
    assert(g.block_count * g.block_size <= 0x7FFF_FFFF * 0x7FFF_FFFF) by (nonlinear_arith)
        requires
            0 <= g.block_count <= 0x7FFF_FFFF,
            0 <= g.block_size <= 0x7FFF_FFFF,
    ;
    (g.block_count as u64) * (g.block_size as u64)
}

/// The trace `later` continues the trace `earlier`.
pub open spec fn extends(earlier: Seq<Contents>, later: Seq<Contents>) -> bool {
    earlier.len() <= later.len() && later.take(earlier.len() as int) == earlier
}

/// There is room for a new object at `location`, behind the last object
/// of a block of the given kind. It is to be object number `k` of its
/// block.
pub open spec fn vacant(
    g: Geometry,
    layout: Seq<BlockLayout>,
    kind: BlockType,
    location: ObjectLocation,
    k: int,
) -> bool {
    &&& location.block < layout.len()
    &&& layout[location.block as int].kind == kind
    &&& k == layout[location.block as int].objects.len()
    &&& location == place_of(g, location.block as int, layout[location.block as int].objects, k)
    &&& crate::ll::objects::header_fits(g, location.offset as int)
}

/// The files that a scan finds once the name object of the file of entry
/// `(eb, ei)` is deleted.
pub open spec fn gone_files(m: Contents, g: Geometry, a: Model, eb: int, ei: int) -> Map<
    Seq<u8>,
    Seq<u8>,
> {
    files(
        state_set(m, g, a.records[a.layout[eb].objects[ei].location].name_at, ObjectState::Deleted),
        g,
    )
}

/// The file to keep, if there is one, is the one at `keep_at`.
pub open spec fn kept_is(
    layout: Seq<BlockLayout>,
    keep: Option<ObjectLocation>,
    keep_at: Option<(int, int)>,
) -> bool {
    match keep {
        Some(location) => keep_at matches Some(at) && layout[at.0].objects[at.1].location
            == location,
        None => keep_at is None,
    }
}

/// A scan that has looked at one more object knows of one more hit, or of
/// none.
pub proof fn lemma_hits_step(
    m: Contents,
    g: Geometry,
    layout: Seq<BlockLayout>,
    path: Seq<u8>,
    found: Seq<ObjectLocation>,
    positions: Seq<(int, int)>,
    block: int,
    index: int,
)
    requires
        hit_list(m, g, layout, path, found, positions),
        hits_up_to(m, g, layout, path, positions, block, index),
    ensures
        !is_hit(m, g, layout, path, block, index) ==> hits_up_to(
            m,
            g,
            layout,
            path,
            positions,
            block,
            index + 1,
        ),
        is_hit(m, g, layout, path, block, index) ==> hit_list(
            m,
            g,
            layout,
            path,
            found.push(layout[block].objects[index].location),
            positions.push((block, index)),
        ) && hits_up_to(m, g, layout, path, positions.push((block, index)), block, index + 1),
        positions.len() == 0 ==> forall|b: int, i: int|
            scanned_before(b, i, block, index) ==> !#[trigger] is_hit(m, g, layout, path, b, i),
{
    let more = positions.push((block, index));
    if is_hit(m, g, layout, path, block, index) {
        assert forall|b: int, i: int|
            scanned_before(b, i, block, index + 1) && #[trigger] is_hit(
                m,
                g,
                layout,
                path,
                b,
                i,
            ) implies more.contains((b, i)) by {
            if b == block && i == index {
                assert(more[more.len() - 1] == (b, i));
            } else {
                assert(scanned_before(b, i, block, index));
                let k = choose|k: int| 0 <= k < positions.len() && positions[k] == (b, i);
                assert(more[k] == (b, i));
            }
        }
        assert forall|k: int| 0 <= k < more.len() implies scanned_before(
            (#[trigger] more[k]).0,
            more[k].1,
            block,
            index + 1,
        ) by {
            if k < positions.len() {
                assert(more[k] == positions[k]);
            }
        }
        let grown = found.push(layout[block].objects[index].location);
        assert forall|k: int| 0 <= k < more.len() implies is_hit(
            m,
            g,
            layout,
            path,
            (#[trigger] more[k]).0,
            more[k].1,
        ) && grown[k] == layout[more[k].0].objects[more[k].1].location by {
            if k < positions.len() {
                assert(more[k] == positions[k]);
            }
        }
        assert forall|k: int, l: int| 0 <= k < l < more.len() implies scanned_before(
            (#[trigger] more[k]).0,
            more[k].1,
            (#[trigger] more[l]).0,
            more[l].1,
        ) by {
            assert(more[k] == positions[k]);
            if l < positions.len() {
                assert(more[l] == positions[l]);
            }
        }
    } else {
        assert forall|b: int, i: int|
            scanned_before(b, i, block, index + 1) && #[trigger] is_hit(
                m,
                g,
                layout,
                path,
                b,
                i,
            ) implies positions.contains((b, i)) by {
            assert(scanned_before(b, i, block, index));
        }
        assert forall|k: int| 0 <= k < positions.len() implies scanned_before(
            (#[trigger] positions[k]).0,
            positions[k].1,
            block,
            index + 1,
        ) by {}
    }
    if positions.len() == 0 {
        assert forall|b: int, i: int| scanned_before(b, i, block, index) implies !#[trigger] is_hit(
            m,
            g,
            layout,
            path,
            b,
            i,
        ) by {
            if is_hit(m, g, layout, path, b, i) {
                assert(positions.contains((b, i)));
            }
        }
    }
}

/// A scan that is through with a block, or passes it by because it is no
/// metadata block, knows all hits before the next block.
pub proof fn lemma_hits_next_block(
    m: Contents,
    g: Geometry,
    layout: Seq<BlockLayout>,
    path: Seq<u8>,
    positions: Seq<(int, int)>,
    block: int,
    index: int,
)
    requires
        hits_up_to(m, g, layout, path, positions, block, index),
        0 <= block < layout.len(),
        layout[block].kind != BlockType::Metadata || index >= layout[block].objects.len(),
    ensures
        hits_up_to(m, g, layout, path, positions, block + 1, 0),
{
    assert forall|b: int, i: int|
        scanned_before(b, i, block + 1, 0) && #[trigger] is_hit(
            m,
            g,
            layout,
            path,
            b,
            i,
        ) implies positions.contains((b, i)) by {
        assert(scanned_before(b, i, block, index));
    }
    assert forall|k: int| 0 <= k < positions.len() implies scanned_before(
        (#[trigger] positions[k]).0,
        positions[k].1,
        block + 1,
        0,
    ) by {}
}

impl<M: StorageMedium> Storage<M> {
    /// The medium that the storage lives on.
    pub closed spec fn medium(&self) -> M {
        self.medium
    }

    /// What the engine remembers of each block.
    pub closed spec fn blocks(&self) -> Seq<BlockInfo> {
        self.blocks@
    }

    /// The structure that the engine takes the medium to have.
    pub closed spec fn model(&self) -> Model {
        self.model@
    }

    /// The medium has the structure that the engine relies on, and what
    /// the engine remembers of the blocks is true of them: the kind of
    /// each, and where its last object ends. (For a block that the engine
    /// has given up writing to, it remembers the block's end instead.)
    pub open spec fn consistent(&self) -> bool {
        &&& self.wf()
        &&& refines(self.medium()@, self.medium().spec_geometry(), self.model())
        &&& forall|b: int|
            0 <= b < self.blocks().len() ==> (#[trigger] self.blocks()[b]).kind
                == self.model().layout[b].kind && (self.blocks()[b].used == end_of(
                self.medium().spec_geometry(),
                self.model().layout[b].objects,
            ) || self.blocks()[b].used == self.medium().spec_geometry().block_size)
    }

    /// The files that the medium holds, by path.
    pub open spec fn files(&self) -> Map<Seq<u8>, Seq<u8>> {
        files(self.medium()@, self.medium().spec_geometry())
    }

    /// An operation that only reads left the storage as it was.
    pub open spec fn unchanged(&self, before: &Self) -> bool {
        &&& self.follows(before)
        &&& untouched(&before.medium(), &self.medium())
        &&& self.blocks() == before.blocks()
        &&& self.model() == before.model()
    }

    /// The storage still lives on the medium that `before` lived on, and
    /// the trace of the medium continues.
    pub open spec fn went_on(&self, before: &Self) -> bool {
        &&& self.follows(before)
        &&& extends(before.medium().trace(), self.medium().trace())
    }

    /// What has gone on twice has gone on.
    pub proof fn lemma_went_twice(&self, mid: &Self, before: &Self)
        requires
            mid.went_on(before),
            self.went_on(mid),
        ensures
            self.went_on(before),
    {
        let t0 = before.medium().trace();
        let t1 = mid.medium().trace();
        let t2 = self.medium().trace();
        assert(t2.take(t0.len() as int) =~= t1.take(t0.len() as int)) by {
            assert(t2.take(t1.len() as int) == t1);
        }
    }

    /// The storage still lives on the medium that `before` lived on, the
    /// trace of the medium continues, and no block was erased since: what
    /// was written is still written, whether or not the storage was
    /// consistent.
    pub open spec fn moved_on(&self, before: &Self) -> bool {
        &&& self.went_on(before)
        &&& self.medium().erased() == before.medium().erased()
    }

    /// What has moved on twice has moved on.
    pub proof fn lemma_moved_twice(&self, mid: &Self, before: &Self)
        requires
            mid.moved_on(before),
            self.moved_on(mid),
        ensures
            self.moved_on(before),
    {
        self.lemma_went_twice(mid, before);
    }

    /// A storage that is well formed, whose medium has the structure that
    /// the engine takes it to have, and which remembers of each block what
    /// a consistent storage remembered of it, or what is true of it now, is
    /// consistent.
    pub proof fn lemma_consistent_from(&self, before: &Self, touched: int)
        requires
            before.consistent(),
            self.wf(),
            self.medium().spec_geometry() == before.medium().spec_geometry(),
            refines(self.medium()@, self.medium().spec_geometry(), self.model()),
            forall|x: int|
                0 <= x < self.blocks().len() && x != touched ==> #[trigger] self.blocks()[x]
                    == before.blocks()[x] && self.model().layout[x] == before.model().layout[x],
            0 <= touched < self.blocks().len() ==> self.blocks()[touched].kind
                == self.model().layout[touched].kind && (self.blocks()[touched].used == end_of(
                self.medium().spec_geometry(),
                self.model().layout[touched].objects,
            ) || self.blocks()[touched].used == self.medium().spec_geometry().block_size),
        ensures
            self.consistent(),
    {
        assert forall|b: int| 0 <= b < self.blocks().len() implies (#[trigger] self.blocks()[b]).kind
            == self.model().layout[b].kind && (self.blocks()[b].used == end_of(
            self.medium().spec_geometry(),
            self.model().layout[b].objects,
        ) || self.blocks()[b].used == self.medium().spec_geometry().block_size) by {
            if b != touched {
                assert(self.blocks()[b] == before.blocks()[b]);
            }
        }
    }

    /// Since `before`, the engine has only added to the medium what is no
    /// file yet: where the storage was consistent, it still is, with the
    /// same files and the same entries, and at every step in between it was
    /// consistent and held the same files. What was committed before is
    /// still in place.
    pub open spec fn quiet_after(&self, before: &Self) -> bool {
        &&& self.moved_on(before)
        &&& before.consistent() ==> {
            &&& self.consistent()
            &&& same_entries(before.model(), self.model())
            &&& self.model().records == before.model().records
            &&& self.model().owner == before.model().owner
            &&& preserves(
                before.medium()@,
                self.medium()@,
                self.medium().spec_geometry(),
                before.model().layout,
                self.model().layout,
            )
            &&& self.files() == before.files()
            &&& crash_safe(
                self.medium().trace(),
                before.medium().trace().len() as int,
                self.medium().spec_geometry(),
                before.files(),
                before.files(),
            )
        }
    }

    /// What was quiet in two parts was quiet on the whole.
    pub proof fn lemma_quiet_twice(&self, mid: &Self, before: &Self)
        requires
            mid.quiet_after(before),
            self.quiet_after(mid),
        ensures
            self.quiet_after(before),
    {
        let g = self.medium().spec_geometry();
        let t0 = before.medium().trace();
        let t1 = mid.medium().trace();
        let t2 = self.medium().trace();
        assert(t2.take(t0.len() as int) =~= t1.take(t0.len() as int)) by {
            assert(t2.take(t1.len() as int) == t1);
        }
        if before.consistent() {
            lemma_preserves_twice(
                before.medium()@,
                mid.medium()@,
                self.medium()@,
                g,
                before.model().layout,
                mid.model().layout,
                self.model().layout,
            );
            assert forall|i: int| t0.len() <= i < t2.len() implies consistent(#[trigger] t2[i], g)
                && (files(t2[i], g) == before.files() || files(t2[i], g) == before.files()) by {
                if i < t1.len() {
                    assert(t2.take(t1.len() as int)[i] == t2[i]);
                    assert(t1[i] == t2[i]);
                }
            }
            assert(same_entries(before.model(), self.model())) by {
                assert forall|b: int, i: int| #[trigger]
                    is_entry(self.model().layout, b, i) implies is_entry(
                    before.model().layout,
                    b,
                    i,
                ) && self.model().layout[b].objects[i] == before.model().layout[b].objects[i]
                    && self.model().records[self.model().layout[b].objects[i].location]
                    == before.model().records[before.model().layout[b].objects[i].location] by {
                    assert(is_entry(mid.model().layout, b, i));
                }
                assert forall|b: int, i: int| #[trigger]
                    is_entry(before.model().layout, b, i) implies is_entry(
                    self.model().layout,
                    b,
                    i,
                ) by {
                    assert(is_entry(mid.model().layout, b, i));
                }
            }
        }
    }

    /// Nothing that has happened is quiet.
    pub proof fn lemma_quiet_none(&self)
        requires
            self.wf(),
        ensures
            self.quiet_after(self),
    {
        let t = self.medium().trace();
        assert(t.take(t.len() as int) =~= t);
    }

    /// Reading changes neither what the medium holds nor whether it is
    /// consistent.
    pub proof fn lemma_unchanged(&self, before: &Self)
        requires
            self.unchanged(before),
            before.wf(),
        ensures
            self.consistent() == before.consistent(),
            self.files() == before.files(),
    {
    }

    /// The engine remembers every block, and of each an offset inside it.
    pub open spec fn wf(&self) -> bool {
        &&& self.medium().inv()
        &&& self.blocks().len() == self.medium().spec_geometry().block_count
        &&& forall|b: int|
            0 <= b < self.blocks().len() ==> HEADER_BYTES <= (#[trigger] self.blocks()[b]).used
                <= self.medium().spec_geometry().block_size
    }

    /// The storage is well formed and still lives on the medium that
    /// `before` lived on.
    pub open spec fn follows(&self, before: &Self) -> bool {
        &&& self.wf()
        &&& self.medium().spec_geometry() == before.medium().spec_geometry()
        &&& self.medium().reliable() == before.medium().reliable()
    }

    /// Scans every block of the medium. The scan comes through exactly
    /// where every block has a valid header and every object that the scan
    /// meets a valid state. A consistent medium gives a consistent storage,
    /// which holds the files that the medium holds.
    pub fn mount(partition: M) -> (res: Result<Self, StorageError>)
        requires
            partition.inv(),
        ensures
            match res {
                Ok(storage) => storage.wf() && untouched(&partition, &storage.medium()) && parses(
                    partition@,
                    partition.spec_geometry(),
                ) && storage.blocks() == cache_of(
                    partition.spec_geometry(),
                    layout_of(partition@, partition.spec_geometry()),
                ) && (consistent(partition@, partition.spec_geometry())
                    ==> storage.consistent()),
                Err(e) => (e == StorageError::Corrupted && !parses(
                    partition@,
                    partition.spec_geometry(),
                )) || (e == StorageError::Io && !partition.reliable()),
            },
    {
        let mut medium = partition;
        proof {
            medium.lemma_inv();
            crate::medium::lemma_align(medium.spec_geometry(), 0);
        }
        let g = medium.geometry();
        let ghost start = medium;
        let ghost m = medium@;
        let mut blocks: Vec<BlockInfo> = Vec::new();
        let ghost mut layout: Seq<BlockLayout> = Seq::empty();
        let mut block: usize = 0;
        while block < g.block_count
            invariant
                block <= g.block_count,
                untouched(&start, &medium),
                start == partition,
                start.spec_geometry() == g,
                g.valid(),
                m == start@,
                blocks@.len() == block,
                layout.len() == block,
                forall|b: int| 0 <= b < block ==> block_laid_out(m, g, b, #[trigger] layout[b]),
                forall|b: int|
                    0 <= b < block ==> (#[trigger] blocks@[b]).kind == layout[b].kind
                        && blocks@[b].used == end_of(g, layout[b].objects),
                forall|b: int|
                    0 <= b < blocks@.len() ==> HEADER_BYTES <= (#[trigger] blocks@[b]).used
                        <= g.block_size,
            decreases g.block_count - block,
        {
            match BlockOps::scan_objects(&mut medium, block) {
                Ok((info, objects)) => {
                    proof {
                        let scanned = BlockLayout { kind: info.kind, objects: objects@ };
                        lemma_layout_bounds(m, g, block as int, scanned, objects@.len() as int);
                        layout = layout.push(scanned);
                    }
                    blocks.push(info);
                },
                Err(e) => {
                    proof {
                        assert(e == StorageError::Io || e == StorageError::Corrupted);
                        if e == StorageError::Corrupted {
                            if parses(m, g) {
                                let other = layout_of(m, g);
                                assert(laid_out(m, g, other));
                                assert(block_laid_out(m, g, block as int, other[block as int]));
                                assert(false);
                            }
                        } else {
                            assert(!start.reliable());
                        }
                    }
                    return Err(e);
                },
            }
            block += 1;
        }
        proof {
            assert(laid_out(m, g, layout));
            lemma_layout_unique(m, g, layout);
            assert(blocks@ =~= cache_of(g, layout));
        }
        let ghost model = if consistent(m, g) {
            choose|a: Model| refines(m, g, a)
        } else {
            Model { layout, records: Map::empty(), owner: Map::empty() }
        };
        proof {
            if consistent(m, g) {
                lemma_refines_facts(m, g, model);
                lemma_layout_unique(m, g, model.layout);
            }
        }
        Ok(Storage { medium, blocks, model: Ghost(model) })
    }

    /// Erases the medium and sets up `metadata_blocks` metadata blocks. What
    /// results is consistent and holds no file.
    pub fn format(partition: &mut M, metadata_blocks: usize) -> (res: Result<(), StorageError>)
        requires
            old(partition).inv(),
        ensures
            final(partition).inv(),
            final(partition).spec_geometry() == old(partition).spec_geometry(),
            final(partition).reliable() == old(partition).reliable(),
            match res {
                Ok(()) => metadata_blocks <= old(partition).spec_geometry().block_count
                    && final(partition)@ == crate::ll::blocks::formatted(
                    old(partition).spec_geometry(),
                    metadata_blocks as int,
                ) && consistent(final(partition)@, old(partition).spec_geometry()) && files(
                    final(partition)@,
                    old(partition).spec_geometry(),
                ) == Map::<Seq<u8>, Seq<u8>>::empty(),
                Err(e) => (e == StorageError::InsufficientSpace && metadata_blocks > old(partition).spec_geometry().block_count && untouched(old(partition), final(partition)))
                    || (e == StorageError::Io && !old(partition).reliable() && metadata_blocks
                    <= old(partition).spec_geometry().block_count),
            },
    {
        proof {
            partition.lemma_inv();
        }
        let res = BlockOps::format_storage(partition, metadata_blocks);
        proof {
            if res is Ok {
                crate::model::state::lemma_formatted(
                    old(partition).spec_geometry(),
                    metadata_blocks as int,
                );
            }
        }
        res
    }

    /// Erases the medium, sets up `metadata_blocks` metadata blocks and
    /// mounts what results: a consistent storage without files.
    pub fn format_and_mount(partition: M, metadata_blocks: usize) -> (res: Result<
        Self,
        StorageError,
    >)
        requires
            partition.inv(),
        ensures
            match res {
                Ok(storage) => metadata_blocks <= partition.spec_geometry().block_count
                    && storage.consistent() && storage.files() == Map::<
                    Seq<u8>,
                    Seq<u8>,
                >::empty() && storage.medium().spec_geometry() == partition.spec_geometry()
                    && storage.medium().reliable() == partition.reliable() && storage.blocks()
                    == fresh_cache(partition.spec_geometry(), metadata_blocks as int),
                Err(e) => (e == StorageError::InsufficientSpace && metadata_blocks
                    > partition.spec_geometry().block_count) || (e == StorageError::Io
                    && !partition.reliable() && metadata_blocks
                    <= partition.spec_geometry().block_count),
            },
    {
        let mut medium = partition;
        match Self::format(&mut medium, metadata_blocks) {
            Ok(()) => {},
            Err(e) => {
                return Err(e);
            },
        }
        proof {
            let g = medium.spec_geometry();
            let a = choose|a: Model| refines(medium@, g, a);
            lemma_refines_facts(medium@, g, a);
            crate::model::state::lemma_formatted(g, metadata_blocks as int);
            let fresh = crate::model::state::fresh_model(g, metadata_blocks as int);
            lemma_refines_facts(medium@, g, fresh);
            lemma_layout_unique(medium@, g, fresh.layout);
            assert(cache_of(g, fresh.layout) =~= fresh_cache(g, metadata_blocks as int));
        }
        Self::mount(medium)
    }

    /// The number of blocks of the medium.
    pub fn block_count(&self) -> (n: usize)
        requires
            self.wf(),
        ensures
            n == self.medium().spec_geometry().block_count,
            n == self.blocks().len(),
    {
        self.blocks.len()
    }

    /// Gives the medium back.
    pub fn unmount(self) -> (medium: M)
        ensures
            medium == self.medium(),
    {
        self.medium
    }

    /// Tells whether the finalized metadata object at `location` names the
    /// file `path`, whose hash is `hash`.
    fn names(&mut self, location: ObjectLocation, path: &[u8], hash: u32) -> (res: Result<
        bool,
        StorageError,
    >)
        requires
            old(self).wf(),
            hash == path_hash(path@),
        ensures
            res matches Err(e) ==> e.is_fault(),
            final(self).unchanged(old(self)),
            match res {
                Ok(hit) => hit == matches_at(
                    old(self).medium()@,
                    old(self).medium().spec_geometry(),
                    location,
                    path@,
                ),
                Err(e) => (e == StorageError::Io && !old(self).medium().reliable()) || metadata_at(
                    old(self).medium()@,
                    old(self).medium().spec_geometry(),
                    location,
                ) == Err::<MetadataObjectHeader, StorageError>(e) || (metadata_at(
                    old(self).medium()@,
                    old(self).medium().spec_geometry(),
                    location,
                ) matches Ok(meta) && ObjectReader::spec_new(
                    old(self).medium()@,
                    old(self).medium().spec_geometry(),
                    meta.filename_location,
                ) == Err::<ObjectHeader, StorageError>(e) && e != StorageError::InvalidState),
            },
    {
        proof {
            reveal(matches_at);
            self.medium.lemma_inv();
            crate::medium::lemma_align(self.medium().spec_geometry(), 0);
        }
        let meta = match MetadataObjectHeader::read(location, &mut self.medium) {
            Ok(meta) => meta,
            Err(e) => {
                return Err(e);
            },
        };
        if meta.path_hash != hash {
            return Ok(false);
        }
        let mut name = match ObjectReader::new(meta.filename_location, &mut self.medium) {
            Ok(name) => name,
            Err(StorageError::InvalidState) => {
                return Ok(false);
            },
            Err(e) => {
                return Err(e);
            },
        };
        if name.len() != path.len() {
            return Ok(false);
        }
        let stored = match read_rest(&mut name, &mut self.medium) {
            Ok(stored) => stored,
            Err(e) => {
                return Err(e);
            },
        };
        let ghost whole = payload_at(
            self.medium()@,
            self.medium().spec_geometry(),
            meta.filename_location,
            name.header().object_size as int,
        );
        assert(stored@ =~= whole);
        Ok(bytes_equal(stored.as_slice(), path))
    }

    /// Tells whether the object `info`, which a scan of a metadata block
    /// has met, names the file `path`.
    fn examine(
        &mut self,
        info: ObjectInfo,
        path: &[u8],
        hash: u32,
        Ghost(block): Ghost<int>,
        Ghost(index): Ghost<int>,
    ) -> (res: Result<bool, StorageError>)
        requires
            old(self).wf(),
            hash == path_hash(path@),
            old(self).consistent() ==> 0 <= block < old(self).model().layout.len() && 0 <= index
                < old(self).model().layout[block].objects.len() && old(self).model().layout[block].kind
                == BlockType::Metadata && old(self).model().layout[block].objects[index] == info,
        ensures
            res matches Err(e) ==> e.is_fault(),
            final(self).unchanged(old(self)),
            old(self).consistent() ==> match res {
                Ok(hit) => hit == is_hit(
                    old(self).medium()@,
                    old(self).medium().spec_geometry(),
                    old(self).model().layout,
                    path@,
                    block,
                    index,
                ),
                Err(e) => e == StorageError::Io && !old(self).medium().reliable(),
            },
    {
        let ghost m = self.medium()@;
        let ghost g = self.medium().spec_geometry();
        let ghost a = self.model();
        if !info.header.state.is_valid() {
            proof {
                if self.consistent() {
                    lemma_hit_iff(m, g, a, path@, block, index);
                }
            }
            return Ok(false);
        }
        proof {
            if self.consistent() {
                lemma_refines_facts(m, g, a);
                lemma_entry_metadata(m, g, a, block, index);
                let r = a.records[info.location];
                lemma_held_reader(m, g, a.layout, BlockType::Data, r.name_at, r.name_index);
                lemma_held_header(m, g, a.layout, r.name_at.block as int, r.name_index);
            }
        }
        self.names(info.location, path, hash)
    }

    /// Finds the metadata objects of the files stored under `path`, in the
    /// order of the scan: block by block, object by object. With
    /// `first_only` the scan stops at the first.
    fn find(&mut self, path: &[u8], first_only: bool) -> (res: Result<
        (Vec<ObjectLocation>, Ghost<Seq<(int, int)>>),
        StorageError,
    >)
        requires
            old(self).wf(),
        ensures
            res matches Err(e) ==> e.is_fault(),
            final(self).unchanged(old(self)),
            old(self).consistent() ==> match res {
                Ok((found, positions)) => {
                    &&& hit_list(
                        old(self).medium()@,
                        old(self).medium().spec_geometry(),
                        old(self).model().layout,
                        path@,
                        found@,
                        positions@,
                    )
                    &&& if first_only && found@.len() > 0 {
                        found@.len() == 1 && is_first_hit(
                            old(self).medium()@,
                            old(self).medium().spec_geometry(),
                            old(self).model().layout,
                            path@,
                            positions@[0].0,
                            positions@[0].1,
                        )
                    } else {
                        forall|b: int, i: int| #[trigger]
                            is_hit(
                                old(self).medium()@,
                                old(self).medium().spec_geometry(),
                                old(self).model().layout,
                                path@,
                                b,
                                i,
                            ) ==> positions@.contains((b, i))
                    }
                },
                Err(e) => e == StorageError::Io && !old(self).medium().reliable(),
            },
    {
        proof {
            self.medium.lemma_inv();
        }
        let g = self.medium.geometry();
        let ghost ok = self.consistent();
        let ghost m = self.medium()@;
        let ghost a = self.model();
        proof {
            if ok {
                lemma_refines_facts(m, g, a);
            }
        }
        let hash = hash_path(path);
        let mut found: Vec<ObjectLocation> = Vec::new();
        let ghost mut positions: Seq<(int, int)> = Seq::empty();
        let mut block: usize = 0;
        while block < g.block_count
            invariant
                block <= g.block_count,
                old(self).wf(),
                self.unchanged(old(self)),
                self.medium().spec_geometry() == g,
                g.valid(),
                ok == old(self).consistent(),
                m == old(self).medium()@,
                a == old(self).model(),
                hash == path_hash(path@),
                ok ==> laid_out(m, g, a.layout),
                ok ==> hit_list(m, g, a.layout, path@, found@, positions) && hits_up_to(
                    m,
                    g,
                    a.layout,
                    path@,
                    positions,
                    block as int,
                    0,
                ) && (first_only ==> found@.len() == 0),
            decreases g.block_count - block,
        {
            if self.blocks[block].is_metadata() {
                let mut iter = ObjectIterator::new(block);
                let ghost mut i: int = 0;
                let ghost objects = a.layout[block as int].objects;
                proof {
                    if ok {
                        lemma_layout_bounds(m, g, block as int, a.layout[block as int], 0);
                    }
                }
                loop
                    invariant_except_break
                        block < g.block_count,
                        old(self).wf(),
                        self.unchanged(old(self)),
                                self.medium().spec_geometry() == g,
                        g.valid(),
                        ok == old(self).consistent(),
                        m == old(self).medium()@,
                        a == old(self).model(),
                        hash == path_hash(path@),
                        objects == a.layout[block as int].objects,
                        iter.location().block == block,
                        ok ==> laid_out(m, g, a.layout),
                        ok ==> a.layout[block as int].kind == BlockType::Metadata,
                        ok ==> 0 <= i <= objects.len() && iter.location() == place_of(
                            g,
                            block as int,
                            objects,
                            i,
                        ),
                        ok ==> hit_list(m, g, a.layout, path@, found@, positions) && hits_up_to(
                            m,
                            g,
                            a.layout,
                            path@,
                            positions,
                            block as int,
                            i,
                        ) && (first_only ==> found@.len() == 0),
                    ensures
                        self.unchanged(old(self)),
                        ok ==> hit_list(m, g, a.layout, path@, found@, positions) && hits_up_to(
                            m,
                            g,
                            a.layout,
                            path@,
                            positions,
                            block as int + 1,
                            0,
                        ) && (first_only ==> found@.len() == 0),
                    decreases g.block_size + 1 - iter.location().offset,
                {
                    let ghost before = iter.location();
                    proof {
                        if ok {
                            assert(block_laid_out(m, g, block as int, a.layout[block as int]));
                            if i < objects.len() {
                                assert(step_at(m, g, place_of(g, block as int, objects, i))
                                    == Step::Object(objects[i]));
                                lemma_held_header(m, g, a.layout, block as int, i);
                            }
                        }
                    }
                    let info = match iter.next(&mut self.medium) {
                        Ok(Some(info)) => info,
                        Ok(None) => {
                            proof {
                                if ok {
                                    lemma_hits_next_block(
                                        m,
                                        g,
                                        a.layout,
                                        path@,
                                        positions,
                                        block as int,
                                        i,
                                    );
                                }
                            }
                            break ;
                        },
                        Err(e) => {
                            return Err(e);
                        },
                    };
                    proof {
                        lemma_step_object(m, g, before, info);
                        self.lemma_unchanged(old(self));
                        if ok {
                            if i >= objects.len() {
                                assert(step_at(
                                    m,
                                    g,
                                    place_of(g, block as int, objects, objects.len() as int),
                                ) == Step::End);
                            }
                            assert(info == objects[i]);
                            lemma_held_header(m, g, a.layout, block as int, i);
                            lemma_layout_bounds(
                                m,
                                g,
                                block as int,
                                a.layout[block as int],
                                i + 1,
                            );
                        }
                    }
                    if iter.current_offset() > g.block_size || iter.current_offset()
                        <= info.location.offset {
                        return Err(StorageError::Corrupted);
                    }
                    let hit = match self.examine(info, path, hash, Ghost(block as int), Ghost(i)) {
                        Ok(hit) => hit,
                        Err(e) => {
                            return Err(e);
                        },
                    };
                    proof {
                        if ok {
                            lemma_hits_step(
                                m,
                                g,
                                a.layout,
                                path@,
                                found@,
                                positions,
                                block as int,
                                i,
                            );
                        }
                    }
                    if hit {
                        found.push(info.location);
                        proof {
                            positions = positions.push((block as int, i));
                        }
                    }
                    proof {
                        i = i + 1;
                    }
                    if hit && first_only {
                        return Ok((found, Ghost(positions)));
                    }
                }
            } else {
                proof {
                    if ok {
                        lemma_hits_next_block(m, g, a.layout, path@, positions, block as int, 0);
                    }
                }
            }
            block += 1;
        }
        proof {
            if ok {
                assert forall|b: int, i: int| #[trigger]
                    is_hit(m, g, a.layout, path@, b, i) implies positions.contains((b, i)) by {
                    assert(scanned_before(b, i, g.block_count as int, 0));
                }
            }
        }
        Ok((found, Ghost(positions)))
    }

    /// Finds the metadata object of the file stored under `path`: the first
    /// that a scan meets. Where a loss of power has left two for one path,
    /// that is one of two whole files; where it happened while a block was
    /// cleared, the two hold the same contents.
    fn lookup(&mut self, path: &[u8]) -> (res: Result<ObjectLocation, StorageError>)
        requires
            old(self).wf(),
        ensures
            res matches Err(e) ==> e == StorageError::NotFound || e.is_fault(),
            final(self).unchanged(old(self)),
            old(self).consistent() ==> match res {
                Ok(location) => lookup(
                    old(self).medium()@,
                    old(self).medium().spec_geometry(),
                    path@,
                ) == Some(location) && exists|b: int, i: int|
                    is_first_hit(
                        old(self).medium()@,
                        old(self).medium().spec_geometry(),
                        old(self).model().layout,
                        path@,
                        b,
                        i,
                    ) && old(self).model().layout[b].objects[i].location == location,
                Err(e) => (e == StorageError::NotFound && lookup(
                    old(self).medium()@,
                    old(self).medium().spec_geometry(),
                    path@,
                ) is None) || (e == StorageError::Io && !old(self).medium().reliable()),
            },
    {
        let ghost m = self.medium()@;
        let ghost g = self.medium().spec_geometry();
        let ghost a = self.model();
        let ghost ok = self.consistent();
        let (found, positions) = match self.find(path, true) {
            Ok(found) => found,
            Err(e) => {
                return Err(e);
            },
        };
        proof {
            if ok {
                lemma_refines_facts(m, g, a);
                lemma_layout_unique(m, g, a.layout);
                if found@.len() > 0 {
                    let b = positions@[0].0;
                    let i = positions@[0].1;
                    lemma_first_hit_unique(m, g, a.layout, path@, b, i);
                } else {
                    assert forall|b: int, i: int|
                        !is_first_hit(m, g, a.layout, path@, b, i) by {
                        if is_hit(m, g, a.layout, path@, b, i) {
                            assert(positions@.contains((b, i)));
                        }
                    }
                }
            }
        }
        if found.len() == 0 {
            Err(StorageError::NotFound)
        } else {
            Ok(found[0])
        }
    }

    /// Sets the state of the object at `location` to deleted. The caller
    /// says what structure the medium has afterwards.
    fn set_deleted(
        &mut self,
        location: ObjectLocation,
        Ghost(next): Ghost<Model>,
        Ghost(ok): Ghost<bool>,
    ) -> (res: Result<(), StorageError>)
        requires
            old(self).wf(),
            ok ==> old(self).consistent() && location.block < old(self).medium().spec_geometry().block_count
                && crate::ll::objects::header_fits(
                old(self).medium().spec_geometry(),
                location.offset as int,
            ) && old(self).medium().spec_geometry().aligned(location.offset as int) && refines(
                state_set(
                    old(self).medium()@,
                    old(self).medium().spec_geometry(),
                    location,
                    ObjectState::Deleted,
                ),
                old(self).medium().spec_geometry(),
                next,
            ) && next.layout.len() == old(self).model().layout.len() && forall|x: int|
                0 <= x < next.layout.len() ==> (#[trigger] next.layout[x]).kind == old(self).model().layout[x].kind
                    && end_of(old(self).medium().spec_geometry(), next.layout[x].objects)
                    == end_of(
                    old(self).medium().spec_geometry(),
                    old(self).model().layout[x].objects,
                ),
        ensures
            res matches Err(e) ==> e.is_fault(),
            final(self).moved_on(old(self)),
            final(self).blocks() == old(self).blocks(),
            ok ==> final(self).consistent(),
            match res {
                Ok(()) => ok ==> final(self).medium()@ == state_set(
                    old(self).medium()@,
                    old(self).medium().spec_geometry(),
                    location,
                    ObjectState::Deleted,
                ) && final(self).model() == next && final(self).medium().trace() == old(self).medium().trace().push(
                    final(self).medium()@,
                ),
                Err(e) => final(self).model() == old(self).model() && final(self).medium()@ == old(self).medium()@
                    && final(self).medium().trace() == old(self).medium().trace() && (ok ==> e
                    == StorageError::Io && !old(self).medium().reliable()),
            },
    {
        proof {
            self.medium.lemma_inv();
            crate::medium::lemma_align(self.medium.spec_geometry(), 0);
            ObjectState::Deleted.lemma_decode_encoding(self.medium.spec_geometry().granularity);
        }
        let ghost t0 = self.medium().trace();
        let ghost g = self.medium().spec_geometry();
        let res = ObjectOps::update_state(&mut self.medium, location, ObjectState::Deleted);
        proof {
            self.medium.lemma_inv();
            assert(self.medium().trace().take(t0.len() as int) =~= t0);
        }
        match res {
            Ok(()) => {
                self.model = Ghost(
                    if ok {
                        next
                    } else {
                        self.model@
                    },
                );
                proof {
                    if ok {
                        lemma_refines_facts(old(self).medium()@, g, old(self).model());
                        assert forall|b: int| 0 <= b < self.blocks().len() implies (
                        #[trigger] self.blocks()[b]).kind == self.model().layout[b].kind && (
                        self.blocks()[b].used == end_of(g, self.model().layout[b].objects)
                            || self.blocks()[b].used == g.block_size) by {
                            assert(old(self).blocks()[b].kind == old(self).model().layout[b].kind);
                        }
                    }
                }
                Ok(())
            },
            Err(e) => Err(e),
        }
    }

    /// Since `before`, the engine has marked the objects at `places`, from
    /// number `from` up to number `to`, deleted, with one write for each and
    /// in their order, and has written nothing else. No entry came.
    pub open spec fn marked_since(
        &self,
        before: &Self,
        places: Seq<ObjectLocation>,
        from: int,
        to: int,
    ) -> bool {
        let g = before.medium().spec_geometry();
        &&& from <= to
        &&& self.medium()@ == marked(before.medium()@, g, places, from, to)
        &&& self.medium().trace() == before.medium().trace() + marking_steps(
            before.medium()@,
            g,
            places,
            from,
            to,
        )
        &&& entries_shrink(before.model(), self.model())
        &&& same_extents(before.model(), self.model())
    }

    /// What was marked in two runs was marked.
    pub proof fn lemma_marked_since_twice(
        &self,
        mid: &Self,
        before: &Self,
        places: Seq<ObjectLocation>,
        from: int,
        between: int,
        to: int,
    )
        requires
            mid.marked_since(before, places, from, between),
            self.marked_since(mid, places, between, to),
            mid.medium().spec_geometry() == before.medium().spec_geometry(),
        ensures
            self.marked_since(before, places, from, to),
    {
        let g = before.medium().spec_geometry();
        lemma_marked_join(before.medium()@, g, places, from, between, to);
        lemma_shrink_twice(before.model(), mid.model(), self.model());
        lemma_extents_twice(before.model(), mid.model(), self.model());
        let first = marking_steps(before.medium()@, g, places, from, between);
        let second = marking_steps(mid.medium()@, g, places, between, to);
        assert((before.medium().trace() + first) + second =~= before.medium().trace() + (first
            + second));
    }

    /// Where one object was marked, or none, that is what was marked.
    pub proof fn lemma_marked_one(
        &self,
        before: &Self,
        places: Seq<ObjectLocation>,
        at: int,
        done: bool,
    )
        requires
            0 <= at < places.len(),
            entries_shrink(before.model(), self.model()),
            same_extents(before.model(), self.model()),
            done ==> self.medium()@ == state_set(
                before.medium()@,
                before.medium().spec_geometry(),
                places[at],
                ObjectState::Deleted,
            ) && self.medium().trace() == before.medium().trace().push(self.medium()@),
            !done ==> self.medium()@ == before.medium()@ && self.medium().trace()
                == before.medium().trace(),
        ensures
            self.marked_since(
                before,
                places,
                at,
                if done {
                    at + 1
                } else {
                    at
                },
            ),
    {
        let g = before.medium().spec_geometry();
        let m = before.medium()@;
        assert(marked(m, g, places, at, at) == m);
        if done {
            assert(marked(m, g, places, at, at + 1) == state_set(
                m,
                g,
                places[at],
                ObjectState::Deleted,
            ));
            assert(before.medium().trace().push(self.medium()@) =~= before.medium().trace()
                + marking_steps(m, g, places, at, at + 1));
        } else {
            assert(before.medium().trace() =~= before.medium().trace() + marking_steps(
                m,
                g,
                places,
                at,
                at,
            ));
        }
    }

    /// Since `before`, the engine has worked on deleting the file whose
    /// metadata object is at `meta`, and on nothing else: it has marked the
    /// object that holds the name deleted, then the data objects along the
    /// links, then the metadata object, with one write for each, as far as
    /// it came. `done` says whether it came to the end.
    pub open spec fn deleted_file_since(&self, before: &Self, meta: ObjectLocation, done: bool) -> bool {
        let r = before.model().records[meta];
        let n = self.medium().trace().len() - before.medium().trace().len();
        &&& self.marked_since(before, places_of(r, meta), 0, n)
        &&& n <= r.chunks.len() + 2
        &&& done <==> n == r.chunks.len() + 2
    }

    /// Since `before`, the engine has only marked objects deleted: it has
    /// written nothing else and erased no block, and no entry came.
    pub open spec fn only_deleted_since(&self, before: &Self) -> bool {
        &&& only_marks(
            self.medium().trace(),
            before.medium().trace().len() as int,
            before.medium().spec_geometry(),
        )
        &&& entries_shrink(before.model(), self.model())
        &&& same_extents(before.model(), self.model())
    }

    /// What was marked in order was only marked.
    pub proof fn lemma_marked_only(&self, before: &Self, places: Seq<ObjectLocation>, from: int, to: int)
        requires
            before.wf(),
            self.marked_since(before, places, from, to),
        ensures
            self.only_deleted_since(before),
    {
        before.medium().lemma_inv();
        lemma_steps_only_mark(
            before.medium().trace(),
            before.medium()@,
            before.medium().spec_geometry(),
            places,
            from,
            to,
        );
    }

    /// What was only marked in two runs was only marked.
    pub proof fn lemma_only_deleted_twice(&self, mid: &Self, before: &Self)
        requires
            mid.only_deleted_since(before),
            self.only_deleted_since(mid),
            mid.moved_on(before),
            self.moved_on(mid),
        ensures
            self.only_deleted_since(before),
    {
        lemma_shrink_twice(before.model(), mid.model(), self.model());
        lemma_extents_twice(before.model(), mid.model(), self.model());
        lemma_only_marks_join(
            mid.medium().trace(),
            self.medium().trace(),
            before.medium().trace().len() as int,
            before.medium().spec_geometry(),
        );
    }

    /// The file of entry `(eb, ei)` is being deleted: its name object is
    /// deleted, and its data objects from number `j` on are still in place
    /// and belong to it.
    pub open spec fn deleting(&self, eb: int, ei: int, r: FileRecord, j: int) -> bool {
        let g = self.medium().spec_geometry();
        let a = self.model();
        let at = a.layout[eb].objects[ei].location;
        &&& self.consistent()
        &&& is_entry(a.layout, eb, ei)
        &&& !a.records[at].live
        &&& a.records[at].name_at == r.name_at
        &&& 0 <= j <= r.chunks.len()
        &&& apart(r)
        &&& forall|x: int|
            j <= x < r.chunks.len() ==> #[trigger] chunk_held(self.medium()@, g, a.layout, r, x)
                && a.owner.dom().contains(r.chunks[x].at) && a.owner[r.chunks[x].at] == at
    }

    /// Deletes data object number `j` of the file that is being deleted,
    /// and returns the link to the next.
    fn delete_chunk(
        &mut self,
        location: ObjectLocation,
        Ghost(eb): Ghost<int>,
        Ghost(ei): Ghost<int>,
        Ghost(r): Ghost<FileRecord>,
        Ghost(j): Ghost<int>,
        Ghost(ok): Ghost<bool>,
    ) -> (res: Result<Option<ObjectLocation>, StorageError>)
        requires
            old(self).wf(),
            ok ==> old(self).deleting(eb, ei, r, j) && j < r.chunks.len() && location
                == r.chunks[j].at,
        ensures
            res matches Err(e) ==> e.is_fault(),
            final(self).moved_on(old(self)),
            final(self).blocks() == old(self).blocks(),
            ok ==> {
                &&& final(self).consistent()
                &&& hits_kept(
                    old(self).medium()@,
                    final(self).medium()@,
                    old(self).medium().spec_geometry(),
                    old(self).model().layout,
                    final(self).model().layout,
                    eb,
                    ei,
                    false,
                )
                &&& final(self).files() == old(self).files()
                &&& crash_safe(
                    final(self).medium().trace(),
                    old(self).medium().trace().len() as int,
                    old(self).medium().spec_geometry(),
                    old(self).files(),
                    old(self).files(),
                )
                &&& final(self).model().layout[eb].objects[ei].location == old(self).model().layout[eb].objects[ei].location
                &&& final(self).marked_since(
                    old(self),
                    places_of(r, old(self).model().layout[eb].objects[ei].location),
                    j + 1,
                    if res is Ok {
                        j + 2
                    } else {
                        j + 1
                    },
                )
                &&& match res {
                    Ok(next) => next == r.link(j + 1) && final(self).deleting(eb, ei, r, j + 1),
                    Err(e) => e == StorageError::Io && !old(self).medium().reliable(),
                }
            },
    {
        proof {
            self.medium.lemma_inv();
            crate::medium::lemma_align(self.medium.spec_geometry(), 0);
        }
        let ghost g = self.medium().spec_geometry();
        let ghost m = self.medium()@;
        let ghost a = self.model();
        let ghost t0 = self.medium().trace();
        let ghost tb = location.block as int;
        let ghost tk = r.chunks[j].index;
        let ghost places = places_of(r, a.layout[eb].objects[ei].location);
        proof {
            assert(t0.take(t0.len() as int) =~= t0);
            if ok {
                lemma_refines_facts(m, g, a);
                assert(chunk_held(m, g, a.layout, r, j));
                lemma_chunk_data(m, g, a.layout, r, j);
                assert(same_entries(a, a));
                lemma_hits_of_entries(m, m, g, a, a, eb, ei);
                lemma_safe_none(t0, g, files(m, g), files(m, g));
            }
        }
        let data = match DataObjectHeader::read(location, &mut self.medium) {
            Ok((data, _)) => data,
            Err(e) => {
                proof {
                    if ok {
                        lemma_shrink_same(a, a);
                        self.lemma_marked_one(old(self), places, j + 1, false);
                    }
                }
                return Err(e);
            },
        };
        let ghost next = if ok {
            object_deleted(a, tb, tk)
        } else {
            a
        };
        proof {
            if ok {
                lemma_orphan(m, g, a, eb, ei, tb, tk);
                lemma_delete_object(m, g, a, tb, tk);
                lemma_hits_of_entries(
                    m,
                    state_set(m, g, location, ObjectState::Deleted),
                    g,
                    a,
                    next,
                    eb,
                    ei,
                );
            }
        }
        match self.set_deleted(location, Ghost(next), Ghost(ok)) {
            Ok(()) => {},
            Err(e) => {
                proof {
                    if ok {
                        lemma_shrink_same(a, a);
                        self.lemma_marked_one(old(self), places, j + 1, false);
                    }
                }
                return Err(e);
            },
        }
        proof {
            if ok {
                lemma_shrink_same(a, next);
                lemma_extents_deleted(a, tb, tk);
                self.lemma_marked_one(old(self), places, j + 1, true);
                lemma_safe_push(t0, t0.len() as int, g, files(m, g), files(m, g), self.medium()@);
                let at = a.layout[eb].objects[ei].location;
                assert(is_entry(next.layout, eb, ei));
                assert(next.layout[eb].objects[ei].location == at);
                assert forall|x: int| j + 1 <= x < r.chunks.len() implies #[trigger] chunk_held(
                    self.medium()@,
                    g,
                    next.layout,
                    r,
                    x,
                ) && next.owner.dom().contains(r.chunks[x].at) && next.owner[r.chunks[x].at]
                    == at by {
                    assert(chunk_held(m, g, a.layout, r, x));
                    if r.chunks[x].at.block == tb && r.chunks[x].index == tk {
                        assert(r.chunks[x].at == r.chunks[j].at);
                    }
                }
            }
        }
        Ok(data.next)
    }

    /// Deletes the name object of the live file whose metadata object is
    /// at `meta_location`, and returns the link to its first data object.
    /// With this step the file is gone.
    fn delete_name(
        &mut self,
        meta_location: ObjectLocation,
        Ghost(eb): Ghost<int>,
        Ghost(ei): Ghost<int>,
        Ghost(ok): Ghost<bool>,
    ) -> (res: Result<Option<ObjectLocation>, StorageError>)
        requires
            old(self).wf(),
            ok ==> old(self).consistent() && is_entry(old(self).model().layout, eb, ei) && old(self).model().layout[eb].objects[ei].location
                == meta_location && old(self).model().records[meta_location].live,
        ensures
            res matches Err(e) ==> e.is_fault(),
            final(self).moved_on(old(self)),
            final(self).blocks() == old(self).blocks(),
            ok ==> {
                &&& final(self).consistent()
                &&& crash_safe(
                    final(self).medium().trace(),
                    old(self).medium().trace().len() as int,
                    old(self).medium().spec_geometry(),
                    old(self).files(),
                    gone_files(
                        old(self).medium()@,
                        old(self).medium().spec_geometry(),
                        old(self).model(),
                        eb,
                        ei,
                    ),
                )
                &&& final(self).marked_since(
                    old(self),
                    places_of(old(self).model().records[meta_location], meta_location),
                    0,
                    if res is Ok {
                        1
                    } else {
                        0
                    },
                )
                &&& match res {
                    Ok(link) => hits_kept(
                        old(self).medium()@,
                        final(self).medium()@,
                        old(self).medium().spec_geometry(),
                        old(self).model().layout,
                        final(self).model().layout,
                        eb,
                        ei,
                        true,
                    ) && final(self).files() == gone_files(
                        old(self).medium()@,
                        old(self).medium().spec_geometry(),
                        old(self).model(),
                        eb,
                        ei,
                    ) && final(self).deleting(eb, ei, old(self).model().records[meta_location], 0)
                        && link == old(self).model().records[meta_location].first_link() && old(self).model().records[meta_location].chunks.len()
                        <= spec_max_hops(old(self).medium().spec_geometry()) && final(self).model().layout[eb].objects[ei].location
                        == meta_location,
                    Err(e) => e == StorageError::Io && !old(self).medium().reliable() && hits_kept(
                        old(self).medium()@,
                        final(self).medium()@,
                        old(self).medium().spec_geometry(),
                        old(self).model().layout,
                        final(self).model().layout,
                        eb,
                        ei,
                        false,
                    ) && final(self).files() == old(self).files(),
                }
            },
    {
        proof {
            self.medium.lemma_inv();
            crate::medium::lemma_align(self.medium.spec_geometry(), 0);
        }
        let ghost g = self.medium().spec_geometry();
        let ghost m = self.medium()@;
        let ghost a = self.model();
        let ghost t0 = self.medium().trace();
        let ghost r = a.records[meta_location];
        let ghost f0 = files(m, g);
        let ghost f1 = gone_files(m, g, a, eb, ei);
        let ghost places = places_of(r, meta_location);
        proof {
            assert(t0.take(t0.len() as int) =~= t0);
            if ok {
                crate::model::remove::lemma_name_gone(m, g, a, eb, ei);
                assert(same_entries(a, a));
                lemma_hits_of_entries(m, m, g, a, a, eb, ei);
                lemma_safe_none(t0, g, f0, f1);
            }
        }
        let meta = match MetadataObjectHeader::read(meta_location, &mut self.medium) {
            Ok(meta) => meta,
            Err(e) => {
                proof {
                    if ok {
                        lemma_shrink_same(a, a);
                        self.lemma_marked_one(old(self), places, 0, false);
                    }
                }
                return Err(e);
            },
        };
        let ghost a1 = if ok {
            name_deleted(a, eb, ei)
        } else {
            a
        };
        match self.set_deleted(meta.filename_location, Ghost(a1), Ghost(ok)) {
            Ok(()) => {},
            Err(e) => {
                proof {
                    if ok {
                        lemma_shrink_same(a, a);
                        self.lemma_marked_one(old(self), places, 0, false);
                    }
                }
                return Err(e);
            },
        }
        proof {
            if ok {
                lemma_shrink_name(m, g, a, eb, ei);
                self.lemma_marked_one(old(self), places, 0, true);
                lemma_safe_push(t0, t0.len() as int, g, f0, f1, self.medium()@);
            }
        }
        Ok(meta.first_data)
    }

    /// Deletes the data objects of the file that is being deleted, from
    /// the one that `link` points to on.
    fn delete_chunks(
        &mut self,
        first: Option<ObjectLocation>,
        Ghost(eb): Ghost<int>,
        Ghost(ei): Ghost<int>,
        Ghost(r): Ghost<FileRecord>,
        Ghost(ok): Ghost<bool>,
    ) -> (res: Result<(), StorageError>)
        requires
            old(self).wf(),
            ok ==> old(self).deleting(eb, ei, r, 0) && first == r.first_link() && r.chunks.len()
                <= spec_max_hops(old(self).medium().spec_geometry()),
        ensures
            res matches Err(e) ==> e.is_fault(),
            final(self).moved_on(old(self)),
            final(self).blocks() == old(self).blocks(),
            ok ==> {
                &&& final(self).consistent()
                &&& hits_kept(
                    old(self).medium()@,
                    final(self).medium()@,
                    old(self).medium().spec_geometry(),
                    old(self).model().layout,
                    final(self).model().layout,
                    eb,
                    ei,
                    false,
                )
                &&& final(self).files() == old(self).files()
                &&& crash_safe(
                    final(self).medium().trace(),
                    old(self).medium().trace().len() as int,
                    old(self).medium().spec_geometry(),
                    old(self).files(),
                    old(self).files(),
                )
                &&& final(self).model().layout[eb].objects[ei].location == old(self).model().layout[eb].objects[ei].location
                &&& final(self).marked_since(
                    old(self),
                    places_of(r, old(self).model().layout[eb].objects[ei].location),
                    1,
                    1 + final(self).medium().trace().len() - old(self).medium().trace().len(),
                )
                &&& final(self).medium().trace().len() - old(self).medium().trace().len()
                    <= r.chunks.len()
                &&& res is Ok ==> final(self).medium().trace().len() - old(self).medium().trace().len()
                    == r.chunks.len()
                &&& match res {
                    Ok(()) => final(self).deleting(eb, ei, r, r.chunks.len() as int),
                    Err(e) => e == StorageError::Io && !old(self).medium().reliable(),
                }
            },
    {
        proof {
            self.medium.lemma_inv();
            crate::medium::lemma_align(self.medium.spec_geometry(), 0);
        }
        let g = self.medium.geometry();
        let ghost m = self.medium()@;
        let ghost a = self.model();
        let ghost t0 = self.medium().trace();
        let ghost f0 = files(m, g);
        let ghost places = places_of(r, a.layout[eb].objects[ei].location);
        proof {
            assert(t0.take(t0.len() as int) =~= t0);
            if ok {
                lemma_shrink_same(a, a);
                self.lemma_marked_one(old(self), places, 1, false);
                lemma_refines_facts(m, g, a);
                assert(same_entries(a, a));
                lemma_hits_of_entries(m, m, g, a, a, eb, ei);
                lemma_safe_none(t0, g, f0, f0);
            }
        }
        let mut link = first;
        let mut hops = max_hops(&g);
        let ghost mut j: int = 0;
        while link.is_some()
            invariant
                self.moved_on(old(self)),
                self.blocks() == old(self).blocks(),
                self.medium().spec_geometry() == g,
                self.wf(),
                ok ==> self.deleting(eb, ei, r, j) && link == r.link(j) && hops + j
                    == spec_max_hops(g) && r.chunks.len() <= spec_max_hops(g),
                ok ==> self.marked_since(old(self), places, 1, 1 + j) && self.medium().trace().len()
                    == t0.len() + j,
                places == places_of(r, a.layout[eb].objects[ei].location),
                ok ==> hits_kept(m, self.medium()@, g, a.layout, self.model().layout, eb, ei, false)
                    && self.files() == f0 && crash_safe(
                    self.medium().trace(),
                    t0.len() as int,
                    g,
                    f0,
                    f0,
                ) && self.model().layout[eb].objects[ei].location == a.layout[eb].objects[ei].location,
                t0 == old(self).medium().trace(),
                f0 == old(self).files(),
                m == old(self).medium()@,
                a == old(self).model(),
                g == old(self).medium().spec_geometry(),
            decreases hops + (if link is Some { 1int } else { 0int }),
        {
            if hops == 0 {
                return Err(StorageError::Corrupted);
            }
            let location = link.unwrap();
            let ghost before = *self;
            let step = self.delete_chunk(
                location,
                Ghost(eb),
                Ghost(ei),
                Ghost(r),
                Ghost(j),
                Ghost(ok),
            );
            proof {
                self.lemma_moved_twice(&before, old(self));
                if ok {
                    self.lemma_marked_since_twice(
                        &before,
                        old(self),
                        places,
                        1,
                        1 + j,
                        if step is Ok {
                            j + 2
                        } else {
                            j + 1
                        },
                    );
                    lemma_hits_kept_twice(
                        m,
                        before.medium()@,
                        self.medium()@,
                        g,
                        a.layout,
                        before.model().layout,
                        self.model().layout,
                        eb,
                        ei,
                        false,
                        false,
                    );
                    lemma_safe_join(
                        before.medium().trace(),
                        self.medium().trace(),
                        t0.len() as int,
                        g,
                        f0,
                        f0,
                        f0,
                        f0,
                    );
                }
            }
            match step {
                Ok(next) => {
                    link = next;
                    hops = hops - 1;
                    proof {
                        j = j + 1;
                    }
                },
                Err(e) => {
                    return Err(e);
                },
            }
        }
        Ok(())
    }

    /// Deletes the metadata object of the file that is being deleted, once
    /// its data objects are deleted.
    fn delete_meta(
        &mut self,
        meta_location: ObjectLocation,
        Ghost(eb): Ghost<int>,
        Ghost(ei): Ghost<int>,
        Ghost(r): Ghost<FileRecord>,
        Ghost(ok): Ghost<bool>,
    ) -> (res: Result<(), StorageError>)
        requires
            old(self).wf(),
            ok ==> old(self).deleting(eb, ei, r, r.chunks.len() as int) && old(self).model().layout[eb].objects[ei].location
                == meta_location,
        ensures
            res matches Err(e) ==> e.is_fault(),
            final(self).moved_on(old(self)),
            final(self).blocks() == old(self).blocks(),
            ok ==> {
                &&& final(self).consistent()
                &&& hits_kept(
                    old(self).medium()@,
                    final(self).medium()@,
                    old(self).medium().spec_geometry(),
                    old(self).model().layout,
                    final(self).model().layout,
                    eb,
                    ei,
                    false,
                )
                &&& final(self).files() == old(self).files()
                &&& crash_safe(
                    final(self).medium().trace(),
                    old(self).medium().trace().len() as int,
                    old(self).medium().spec_geometry(),
                    old(self).files(),
                    old(self).files(),
                )
                &&& final(self).marked_since(
                    old(self),
                    places_of(r, meta_location),
                    r.chunks.len() as int + 1,
                    if res is Ok {
                        r.chunks.len() as int + 2
                    } else {
                        r.chunks.len() as int + 1
                    },
                )
                &&& res is Ok ==> !is_entry(final(self).model().layout, eb, ei)
                &&& res matches Err(e) ==> e == StorageError::Io && !old(self).medium().reliable()
            },
    {
        proof {
            self.medium.lemma_inv();
            crate::medium::lemma_align(self.medium.spec_geometry(), 0);
        }
        let ghost g = self.medium().spec_geometry();
        let ghost m = self.medium()@;
        let ghost a = self.model();
        let ghost t0 = self.medium().trace();
        let ghost f0 = files(m, g);
        let ghost a2 = if ok {
            object_deleted(a, eb, ei)
        } else {
            a
        };
        proof {
            assert(t0.take(t0.len() as int) =~= t0);
            if ok {
                lemma_refines_facts(m, g, a);
                assert(same_entries(a, a));
                lemma_hits_of_entries(m, m, g, a, a, eb, ei);
                lemma_safe_none(t0, g, f0, f0);
                lemma_held_header(m, g, a.layout, eb, ei);
                lemma_delete_entry(m, g, a, eb, ei);
                lemma_delete_entry_hits(m, g, a, eb, ei);
            }
        }
        let last = self.set_deleted(meta_location, Ghost(a2), Ghost(ok));
        proof {
            if ok {
                lemma_shrink_same(a, a);
                lemma_shrink_entry(m, g, a, eb, ei);
                self.lemma_marked_one(
                    old(self),
                    places_of(r, meta_location),
                    r.chunks.len() as int + 1,
                    last is Ok,
                );
                if last is Ok {
                    lemma_refines_facts(self.medium()@, g, self.model());
                    lemma_layout_unique(m, g, a.layout);
                    lemma_layout_unique(self.medium()@, g, self.model().layout);
                    lemma_files_by_hits(m, self.medium()@, g, a.layout, self.model().layout, eb, ei);
                    lemma_safe_push(t0, t0.len() as int, g, f0, f0, self.medium()@);
                }
            }
        }
        last
    }

    /// Deletes the file whose metadata object is at `meta_location`: first
    /// the object that holds its name, then each object of its contents
    /// along the links, and the metadata object last, each with one write
    /// that marks it deleted, and nothing else is written. With the first of
    /// these steps the file is gone; the others give back what it took.
    /// Where a write fails, the work ends there, with the objects before it
    /// marked.
    fn delete_file_at(
        &mut self,
        meta_location: ObjectLocation,
        Ghost(eb): Ghost<int>,
        Ghost(ei): Ghost<int>,
        Ghost(ok): Ghost<bool>,
    ) -> (res: Result<(), StorageError>)
        requires
            old(self).wf(),
            ok ==> old(self).consistent() && is_entry(old(self).model().layout, eb, ei) && old(self).model().layout[eb].objects[ei].location
                == meta_location && old(self).model().records[meta_location].live,
        ensures
            res matches Err(e) ==> e.is_fault(),
            final(self).moved_on(old(self)),
            final(self).blocks() == old(self).blocks(),
            ok ==> {
                &&& final(self).consistent()
                &&& (hits_kept(
                    old(self).medium()@,
                    final(self).medium()@,
                    old(self).medium().spec_geometry(),
                    old(self).model().layout,
                    final(self).model().layout,
                    eb,
                    ei,
                    true,
                ) && final(self).files() == gone_files(
                    old(self).medium()@,
                    old(self).medium().spec_geometry(),
                    old(self).model(),
                    eb,
                    ei,
                )) || (res is Err && hits_kept(
                    old(self).medium()@,
                    final(self).medium()@,
                    old(self).medium().spec_geometry(),
                    old(self).model().layout,
                    final(self).model().layout,
                    eb,
                    ei,
                    false,
                ) && final(self).files() == old(self).files())
                &&& crash_safe(
                    final(self).medium().trace(),
                    old(self).medium().trace().len() as int,
                    old(self).medium().spec_geometry(),
                    old(self).files(),
                    gone_files(
                        old(self).medium()@,
                        old(self).medium().spec_geometry(),
                        old(self).model(),
                        eb,
                        ei,
                    ),
                )
                &&& final(self).deleted_file_since(old(self), meta_location, res is Ok)
                &&& res is Ok ==> !is_entry(final(self).model().layout, eb, ei)
                &&& res matches Err(e) ==> e == StorageError::Io && !old(self).medium().reliable()
            },
    {
        let ghost g = self.medium().spec_geometry();
        let ghost m = self.medium()@;
        let ghost a = self.model();
        let ghost t0 = self.medium().trace();
        let ghost r = a.records[meta_location];
        let ghost f0 = files(m, g);
        let ghost f1 = gone_files(m, g, a, eb, ei);
        let ghost places = places_of(r, meta_location);
        let named = self.delete_name(meta_location, Ghost(eb), Ghost(ei), Ghost(ok));
        proof {
            if ok {
                assert(self.medium().trace().len() == t0.len() + marking_steps(
                    m,
                    g,
                    places,
                    0,
                    if named is Ok {
                        1
                    } else {
                        0
                    },
                ).len());
            }
        }
        let link = match named {
            Ok(link) => link,
            Err(e) => {
                return Err(e);
            },
        };
        let ghost s1 = *self;
        let rest = self.delete_chunks(link, Ghost(eb), Ghost(ei), Ghost(r), Ghost(ok));
        let ghost s2 = *self;
        proof {
            self.lemma_moved_twice(&s1, old(self));
            if ok {
                let n = self.medium().trace().len() - s1.medium().trace().len();
                self.lemma_marked_since_twice(&s1, old(self), places, 0, 1, 1 + n);
                assert(self.medium().trace().len() == t0.len() + marking_steps(
                    m,
                    g,
                    places,
                    0,
                    1 + n,
                ).len());
                lemma_hits_kept_twice(
                    m,
                    s1.medium()@,
                    self.medium()@,
                    g,
                    a.layout,
                    s1.model().layout,
                    self.model().layout,
                    eb,
                    ei,
                    true,
                    false,
                );
                lemma_safe_join(
                    s1.medium().trace(),
                    self.medium().trace(),
                    t0.len() as int,
                    g,
                    f0,
                    f1,
                    f1,
                    f1,
                );
            }
        }
        match rest {
            Ok(()) => {},
            Err(e) => {
                return Err(e);
            },
        }
        let last = self.delete_meta(meta_location, Ghost(eb), Ghost(ei), Ghost(r), Ghost(ok));
        proof {
            self.lemma_moved_twice(&s2, old(self));
            if ok {
                let all = r.chunks.len() as int;
                self.lemma_marked_since_twice(
                    &s2,
                    old(self),
                    places,
                    0,
                    all + 1,
                    if last is Ok {
                        all + 2
                    } else {
                        all + 1
                    },
                );
                assert(self.medium().trace().len() == t0.len() + marking_steps(
                    m,
                    g,
                    places,
                    0,
                    if last is Ok {
                        all + 2
                    } else {
                        all + 1
                    },
                ).len());
                lemma_hits_kept_twice(
                    m,
                    s2.medium()@,
                    self.medium()@,
                    g,
                    a.layout,
                    s2.model().layout,
                    self.model().layout,
                    eb,
                    ei,
                    true,
                    false,
                );
                lemma_safe_join(
                    s2.medium().trace(),
                    self.medium().trace(),
                    t0.len() as int,
                    g,
                    f0,
                    f1,
                    f1,
                    f1,
                );
            }
        }
        last
    }

    /// Tells whether the file of the entry `info` has an object in block
    /// `victim`: its name object, or, as long as it is live, one of its
    /// data objects.
    fn entry_reaches(
        &mut self,
        info: ObjectInfo,
        victim: usize,
        Ghost(b): Ghost<int>,
        Ghost(i): Ghost<int>,
        Ghost(ok): Ghost<bool>,
    ) -> (res: Result<bool, StorageError>)
        requires
            old(self).wf(),
            ok ==> old(self).consistent() && is_entry(old(self).model().layout, b, i) && old(self).model().layout[b].objects[i]
                == info,
        ensures
            final(self).unchanged(old(self)),
            ok ==> match res {
                Ok(found) => found == reaches(
                    old(self).model().records[info.location],
                    victim as int,
                ),
                Err(e) => e == StorageError::Io && !old(self).medium().reliable(),
            },
    {
        proof {
            self.medium.lemma_inv();
            crate::medium::lemma_align(self.medium.spec_geometry(), 0);
        }
        let g = self.medium.geometry();
        let ghost m = self.medium()@;
        let ghost a = self.model();
        let ghost r = a.records[info.location];
        proof {
            if ok {
                lemma_refines_facts(m, g, a);
                lemma_live_entry(m, g, a, b, i);
            }
        }
        let meta = match MetadataObjectHeader::read(info.location, &mut self.medium) {
            Ok(meta) => meta,
            Err(e) => {
                return Err(e);
            },
        };
        if meta.filename_location.block == victim {
            return Ok(true);
        }
        match ObjectReader::new(meta.filename_location, &mut self.medium) {
            Ok(_) => {},
            Err(StorageError::InvalidState) => {
                return Ok(false);
            },
            Err(e) => {
                return Err(e);
            },
        }
        let mut link = meta.first_data;
        let mut hops = max_hops(&g);
        let ghost mut j: int = 0;
        while link.is_some()
            invariant
                old(self).wf(),
                self.unchanged(old(self)),
                self.medium().spec_geometry() == g,
                g.valid(),
                m == old(self).medium()@,
                ok ==> laid_out(m, g, a.layout) && crate::model::state::closed(g, a.layout)
                    && r.live && 0 <= j <= r.chunks.len() && link == r.link(j) && hops + j
                    == spec_max_hops(g) && r.chunks.len() <= spec_max_hops(g),
                ok ==> forall|x: int| 0 <= x < r.chunks.len() ==> #[trigger] chunk_held(m, g, a.layout, r, x),
                ok ==> forall|x: int| 0 <= x < j ==> (#[trigger] r.chunks[x]).at.block != victim,
                ok ==> r.name_at.block != victim,
                r == old(self).model().records[info.location],
            decreases hops + (if link is Some { 1int } else { 0int }),
        {
            if hops == 0 {
                return Err(StorageError::Corrupted);
            }
            let location = link.unwrap();
            if location.block == victim {
                return Ok(true);
            }
            proof {
                if ok {
                    lemma_chunk_data(m, g, a.layout, r, j);
                }
            }
            match DataObjectHeader::read(location, &mut self.medium) {
                Ok((data, _)) => {
                    link = data.next;
                    hops = hops - 1;
                    proof {
                        j = j + 1;
                    }
                },
                Err(e) => {
                    return Err(e);
                },
            }
        }
        Ok(false)
    }

    /// The name of the file whose metadata object is object number `i` of
    /// block `b`, where it is that of a file: where it is finalized, its
    /// name object is in place, and a scan for the name finds no other
    /// before it.
    fn first_name(
        &mut self,
        info: ObjectInfo,
        Ghost(b): Ghost<int>,
        Ghost(i): Ghost<int>,
        Ghost(ok): Ghost<bool>,
    ) -> (res: Result<Option<Vec<u8>>, StorageError>)
        requires
            old(self).wf(),
            ok ==> old(self).consistent() && 0 <= b < old(self).model().layout.len() && 0 <= i
                < old(self).model().layout[b].objects.len() && old(self).model().layout[b].kind
                == BlockType::Metadata && old(self).model().layout[b].objects[i] == info,
        ensures
            final(self).unchanged(old(self)),
            ok ==> match res {
                Ok(Some(name)) => lookup(
                    old(self).medium()@,
                    old(self).medium().spec_geometry(),
                    name@,
                ) == Some(info.location),
                Ok(None) => forall|path: Seq<u8>| #[trigger]
                    lookup(old(self).medium()@, old(self).medium().spec_geometry(), path) != Some(
                        info.location,
                    ),
                Err(e) => e == StorageError::Io && !old(self).medium().reliable(),
            },
    {
        proof {
            self.medium.lemma_inv();
            crate::medium::lemma_align(self.medium.spec_geometry(), 0);
        }
        let ghost g = self.medium().spec_geometry();
        let ghost m = self.medium()@;
        let ghost a = self.model();
        let ghost r = a.records[info.location];
        proof {
            if ok {
                lemma_refines_facts(m, g, a);
                assert forall|path: Seq<u8>| #[trigger]
                    is_hit(m, g, a.layout, path, b, i) implies is_entry(a.layout, b, i) && r.live
                    && r.name == path by {
                    lemma_hit_iff(m, g, a, path, b, i);
                }
                if !(is_entry(a.layout, b, i) && r.live) {
                    lemma_not_looked_up(m, g, a.layout, b, i);
                } else {
                    lemma_live_entry(m, g, a, b, i);
                    lemma_live_name(m, g, a, b, i);
                }
            }
        }
        if !info.header.state.is_valid() {
            return Ok(None);
        }
        let meta = match MetadataObjectHeader::read(info.location, &mut self.medium) {
            Ok(meta) => meta,
            Err(e) => {
                proof {
                    if ok {
                        lemma_live_entry(m, g, a, b, i);
                    }
                }
                return Err(e);
            },
        };
        proof {
            self.medium.lemma_inv();
            if ok {
                lemma_live_entry(m, g, a, b, i);
            }
        }
        let mut reader = match ObjectReader::new(meta.filename_location, &mut self.medium) {
            Ok(reader) => reader,
            Err(StorageError::InvalidState) => {
                return Ok(None);
            },
            Err(e) => {
                return Err(e);
            },
        };
        proof {
            self.medium.lemma_inv();
        }
        let name = match read_rest(&mut reader, &mut self.medium) {
            Ok(name) => name,
            Err(e) => {
                return Err(e);
            },
        };
        proof {
            self.lemma_unchanged(old(self));
            if ok {
                let whole = payload_at(m, g, r.name_at, reader.header().object_size as int);
                assert(whole.subrange(0, whole.len() as int) =~= whole);
                crate::ll::objects::lemma_payload_len(
                    m,
                    g,
                    r.name_at,
                    reader.header().object_size as int,
                );
                assert(name@ == r.name);
            }
        }
        let found = match self.lookup(name.as_slice()) {
            Ok(found) => found,
            Err(e) => {
                return Err(e);
            },
        };
        if found.block == info.location.block && found.offset == info.location.offset {
            Ok(Some(name))
        } else {
            proof {
                if ok {
                    lemma_not_looked_up(m, g, a.layout, b, i);
                }
            }
            Ok(None)
        }
    }

    /// A consistent storage has a layout for every block of its medium.
    pub proof fn lemma_layout_facts(&self)
        requires
            self.consistent(),
        ensures
            self.medium().spec_geometry().valid(),
            self.model().layout.len() == self.medium().spec_geometry().block_count,
            self.blocks().len() == self.medium().spec_geometry().block_count,
    {
        lemma_refines_facts(self.medium()@, self.medium().spec_geometry(), self.model());
    }

    /// An entry has a number below the size of a block.
    pub proof fn lemma_entry_index(&self, b: int, i: int)
        requires
            self.consistent(),
            is_entry(self.model().layout, b, i),
        ensures
            0 <= b < self.medium().spec_geometry().block_count,
            0 <= i < self.medium().spec_geometry().block_size,
    {
        let g = self.medium().spec_geometry();
        lemma_refines_facts(self.medium()@, g, self.model());
        crate::model::marks::lemma_index_bound(self.medium()@, g, self.model().layout, b, i + 1);
    }

    /// The geometry of the medium.
    pub(crate) fn geometry(&self) -> (g: Geometry)
        requires
            self.wf(),
        ensures
            g == self.medium().spec_geometry(),
            g.valid(),
    {
        proof {
            self.medium.lemma_inv();
        }
        self.medium.geometry()
    }

    /// Takes the entry `info` away without a change to the files. The file
    /// of a live entry is stored again under its name, outside the block
    /// to avoid, which deletes the entry; of an entry whose file was being
    /// deleted, the metadata object is deleted.
    pub(crate) fn evict(
        &mut self,
        info: ObjectInfo,
        avoid: Option<usize>,
        Ghost(b): Ghost<int>,
        Ghost(i): Ghost<int>,
    ) -> (res: Result<(), StorageError>)
        requires
            old(self).wf(),
            old(self).consistent() ==> is_entry(old(self).model().layout, b, i) && old(self).model().layout[b].objects[i]
                == info,
        ensures
            final(self).moved_on(old(self)),
            old(self).consistent() ==> {
                &&& final(self).consistent()
                &&& final(self).files() == old(self).files()
                &&& crash_safe(
                    final(self).medium().trace(),
                    old(self).medium().trace().len() as int,
                    old(self).medium().spec_geometry(),
                    old(self).files(),
                    old(self).files(),
                )
                &&& match res {
                    Ok(()) => !is_entry(final(self).model().layout, b, i) && (avoid matches Some(v)
                        ==> tenants_shrink(old(self).model(), final(self).model(), v as int)),
                    Err(e) => (e == StorageError::InsufficientSpace && final(self).unchanged(
                        old(self),
                    ) && old(self).model().records[info.location].live && old(self).files().dom().contains(
                        old(self).model().records[info.location].name,
                    ) && old(self).room_for(
                        avoid,
                        old(self).model().records[info.location].name,
                        old(self).files()[old(self).model().records[info.location].name],
                    ) is None) || (e == StorageError::Io && !old(self).medium().reliable()),
                }
            },
    {
        proof {
            self.medium.lemma_inv();
            crate::medium::lemma_align(self.medium.spec_geometry(), 0);
            self.lemma_quiet_none();
        }
        let ghost g = self.medium().spec_geometry();
        let ghost m = self.medium()@;
        let ghost a = self.model();
        let ghost ok = self.consistent();
        let ghost t0 = self.medium().trace();
        let ghost f0 = self.files();
        let ghost r = a.records[info.location];
        proof {
            assert(t0.take(t0.len() as int) =~= t0);
            if ok {
                lemma_refines_facts(m, g, a);
                lemma_live_entry(m, g, a, b, i);
                lemma_safe_none(t0, g, f0, f0);
                if r.live {
                    lemma_live_name(m, g, a, b, i);
                }
            }
        }
        let meta = match MetadataObjectHeader::read(info.location, &mut self.medium) {
            Ok(meta) => meta,
            Err(e) => {
                return Err(e);
            },
        };
        proof {
            self.medium.lemma_inv();
        }
        match ObjectReader::new(meta.filename_location, &mut self.medium) {
            Ok(mut reader) => {
                proof {
                    self.medium.lemma_inv();
                }
                let name = match read_rest(&mut reader, &mut self.medium) {
                    Ok(name) => name,
                    Err(e) => {
                        return Err(e);
                    },
                };
                proof {
                    self.lemma_unchanged(old(self));
                    if ok {
                        let whole = payload_at(m, g, r.name_at, reader.header().object_size as int);
                        assert(whole.subrange(0, whole.len() as int) =~= whole);
                        crate::ll::objects::lemma_payload_len(
                            m,
                            g,
                            r.name_at,
                            reader.header().object_size as int,
                        );
                        assert(name@ == r.name);
                    }
                }
                let data = match self.load(name.as_slice()) {
                    Ok(data) => data,
                    Err(e) => {
                        return Err(e);
                    },
                };
                let ghost s1 = *self;
                proof {
                    self.lemma_unchanged(old(self));
                    if ok {
                        assert(f0.insert(name@, data@) =~= f0);
                    }
                }
                let res = self.put(name.as_slice(), data.as_slice(), avoid);
                proof {
                    self.lemma_moved_twice(&s1, old(self));
                    if ok {
                        lemma_hit_iff(m, g, a, r.name, b, i);
                    }
                }
                res
            },
            Err(StorageError::InvalidState) => {
                let ghost r0 = FileRecord { chunks: Seq::empty(), ..r };
                proof {
                    self.lemma_unchanged(old(self));
                }
                let ghost s1 = *self;
                let res = self.delete_meta(
                    info.location,
                    Ghost(b),
                    Ghost(i),
                    Ghost(r0),
                    Ghost(ok),
                );
                proof {
                    self.lemma_moved_twice(&s1, old(self));
                    if ok && avoid is Some {
                        lemma_tenants_of_entries(a, self.model(), avoid.unwrap() as int);
                    }
                }
                res
            },
            Err(e) => Err(e),
        }
    }

    /// Counts the bytes of `block` that finalized objects take.
    pub(crate) fn count_live(&mut self, block: usize) -> (res: Result<usize, StorageError>)
        requires
            old(self).wf(),
            block < old(self).blocks().len(),
        ensures
            final(self).unchanged(old(self)),
            old(self).consistent() ==> match res {
                Ok(n) => n == live_in(
                    old(self).medium().spec_geometry(),
                    old(self).model().layout,
                    block as int,
                ),
                Err(e) => e == StorageError::Io && !old(self).medium().reliable(),
            },
    {
        proof {
            self.medium.lemma_inv();
            crate::medium::lemma_align(self.medium.spec_geometry(), 0);
        }
        let g = self.medium.geometry();
        let ghost ok = self.consistent();
        let ghost m = self.medium()@;
        let ghost a = self.model();
        let ghost objects = a.layout[block as int].objects;
        proof {
            if ok {
                lemma_refines_facts(m, g, a);
                assert(block_laid_out(m, g, block as int, a.layout[block as int]));
                lemma_layout_bounds(m, g, block as int, a.layout[block as int], 0);
            }
        }
        if self.blocks[block].is_undefined() {
            return Ok(0);
        }
        let mut live: usize = 0;
        let mut iter = ObjectIterator::new(block);
        let ghost mut i: int = 0;
        loop
            invariant_except_break
                block < g.block_count,
                old(self).wf(),
                self.unchanged(old(self)),
                self.medium().spec_geometry() == g,
                g.valid(),
                ok == old(self).consistent(),
                m == old(self).medium()@,
                a == old(self).model(),
                objects == a.layout[block as int].objects,
                iter.location().block == block,
                ok ==> laid_out(m, g, a.layout) && crate::model::state::closed(g, a.layout),
                ok ==> a.layout[block as int].kind != BlockType::Undefined,
                ok ==> 0 <= i <= objects.len() && iter.location() == place_of(
                    g,
                    block as int,
                    objects,
                    i,
                ),
                ok ==> live == live_bytes(g, objects, i),
            ensures
                self.unchanged(old(self)),
                ok ==> live == live_bytes(g, objects, objects.len() as int),
            decreases g.block_size + 1 - iter.location().offset,
        {
            let ghost before = iter.location();
            proof {
                if ok {
                    assert(block_laid_out(m, g, block as int, a.layout[block as int]));
                    if i < objects.len() {
                        assert(step_at(m, g, place_of(g, block as int, objects, i))
                            == Step::Object(objects[i]));
                        lemma_held_header(m, g, a.layout, block as int, i);
                    }
                }
            }
            let info = match iter.next(&mut self.medium) {
                Ok(Some(info)) => info,
                Ok(None) => {
                    proof {
                        if ok {
                            if i < objects.len() {
                                assert(false);
                            }
                        }
                    }
                    break ;
                },
                Err(e) => {
                    return Err(e);
                },
            };
            proof {
                lemma_step_object(m, g, before, info);
                self.lemma_unchanged(old(self));
                if ok {
                    if i >= objects.len() {
                        assert(step_at(
                            m,
                            g,
                            place_of(g, block as int, objects, objects.len() as int),
                        ) == Step::End);
                    }
                    assert(info == objects[i]);
                    lemma_held_header(m, g, a.layout, block as int, i);
                    lemma_layout_bounds(m, g, block as int, a.layout[block as int], i + 1);
                    lemma_live_bound(m, g, a.layout, block as int, i);
                    lemma_live_bound(m, g, a.layout, block as int, i + 1);
                }
            }
            if iter.current_offset() > g.block_size || iter.current_offset()
                <= info.location.offset {
                return Err(StorageError::Corrupted);
            }
            if info.header.state.is_valid() {
                proof {
                    crate::medium::lemma_align(g, 0);
                    if ok {
                        assert(objects[i].header.fits(g, objects[i].location.offset as int));
                    }
                }
                let header = g.object_header_bytes();
                if info.header.object_size > g.block_size - header {
                    return Err(StorageError::Corrupted);
                }
                let size = header + info.header.object_size;
                if live > g.block_size - size {
                    return Err(StorageError::Corrupted);
                }
                live = live + size;
            }
            proof {
                i = i + 1;
            }
        }
        Ok(live)
    }

    /// Picks the block to clear next: of the blocks that something was put
    /// into, the first of those with the fewest bytes in finalized
    /// objects. `None` where nothing was put into any block.
    pub fn pick_victim(&mut self) -> (res: Result<Option<usize>, StorageError>)
        requires
            old(self).wf(),
        ensures
            final(self).unchanged(old(self)),
            old(self).consistent() ==> match res {
                Ok(Some(victim)) => is_victim(
                    old(self).blocks(),
                    old(self).medium().spec_geometry(),
                    old(self).model().layout,
                    victim as int,
                ),
                Ok(None) => forall|b: int| !candidate(old(self).blocks(), b),
                Err(e) => e == StorageError::Io && !old(self).medium().reliable(),
            },
    {
        proof {
            self.medium.lemma_inv();
        }
        let g = self.medium.geometry();
        let ghost ok = self.consistent();
        let ghost layout = self.model().layout;
        let ghost blocks = self.blocks();
        let mut best: Option<(usize, usize)> = None;
        let mut block: usize = 0;
        while block < g.block_count
            invariant
                block <= g.block_count,
                old(self).wf(),
                self.unchanged(old(self)),
                self.medium().spec_geometry() == g,
                ok == old(self).consistent(),
                layout == old(self).model().layout,
                blocks == old(self).blocks(),
                ok ==> match best {
                    Some((victim, live)) => victim < block && candidate(blocks, victim as int)
                        && live == live_in(g, layout, victim as int) && (forall|b: int|
                        0 <= b < block && #[trigger] candidate(blocks, b) ==> live <= live_in(
                            g,
                            layout,
                            b,
                        )) && (forall|b: int|
                        0 <= b < victim && #[trigger] candidate(blocks, b) ==> live < live_in(
                            g,
                            layout,
                            b,
                        )),
                    None => forall|b: int| 0 <= b < block ==> !candidate(blocks, b),
                },
            decreases g.block_count - block,
        {
            let info = self.blocks[block];
            if !info.is_undefined() && info.used > HEADER_BYTES {
                let live = match self.count_live(block) {
                    Ok(live) => live,
                    Err(e) => {
                        return Err(e);
                    },
                };
                proof {
                    self.lemma_unchanged(old(self));
                }
                best = match best {
                    Some((victim, least)) => if live < least {
                        Some((block, live))
                    } else {
                        Some((victim, least))
                    },
                    None => Some((block, live)),
                };
            }
            block += 1;
        }
        match best {
            Some((victim, _)) => Ok(Some(victim)),
            None => Ok(None),
        }
    }

    /// Erases block `victim`, which is not in use.
    pub(crate) fn erase_block(&mut self, victim: usize) -> (res: Result<(), StorageError>)
        requires
            old(self).wf(),
            victim < old(self).blocks().len(),
            old(self).consistent() ==> !in_use(old(self).model(), victim as int),
        ensures
            final(self).went_on(old(self)),
            final(self).medium().erased() == old(self).medium().erased() + (if res is Ok {
                1nat
            } else {
                0nat
            }),
            old(self).consistent() ==> {
                &&& final(self).consistent()
                &&& final(self).files() == old(self).files()
                &&& crash_safe(
                    final(self).medium().trace(),
                    old(self).medium().trace().len() as int,
                    old(self).medium().spec_geometry(),
                    old(self).files(),
                    old(self).files(),
                )
                &&& match res {
                    Ok(()) => final(self).model() == erased(old(self).model(), victim as int)
                        && !in_use(final(self).model(), victim as int) && final(self).blocks()[victim as int].kind
                        == BlockType::Undefined
                        && final(self).medium()@[victim as int] == crate::medium::blank(
                        old(self).medium().spec_geometry().block_size as int,
                    ),
                    Err(e) => e == StorageError::Io && !old(self).medium().reliable()
                        && final(self).model() == old(self).model(),
                }
            },
    {
        proof {
            self.medium.lemma_inv();
        }
        let ghost g = self.medium().spec_geometry();
        let ghost m = self.medium()@;
        let ghost a = self.model();
        let ghost ok = self.consistent();
        let ghost t0 = self.medium().trace();
        proof {
            assert(t0.take(t0.len() as int) =~= t0);
            if ok {
                lemma_safe_none(t0, g, files(m, g), files(m, g));
            }
        }
        match self.medium.erase(victim) {
            Ok(()) => {},
            Err(e) => {
                return Err(e);
            },
        }
        self.blocks[victim] = BlockInfo { kind: BlockType::Undefined, used: HEADER_BYTES };
        let ghost next = if ok {
            erased(a, victim as int)
        } else {
            a
        };
        self.model = Ghost(next);
        proof {
            self.medium.lemma_inv();
            assert(self.medium().trace().take(t0.len() as int) =~= t0);
            if ok {
                lemma_refines_facts(m, g, a);
                lemma_refines_erase(m, g, a, victim as int);
                lemma_safe_push(t0, t0.len() as int, g, files(m, g), files(m, g), self.medium()@);
                self.lemma_consistent_from(old(self), victim as int);
            }
        }
        Ok(())
    }

    /// Gives the undefined block `block` a kind.
    fn claim_block(&mut self, block: usize, kind: BlockType) -> (res: Result<(), StorageError>)
        requires
            old(self).wf(),
            kind != BlockType::Undefined,
            block < old(self).blocks().len(),
            old(self).blocks()[block as int].kind == BlockType::Undefined,
        ensures
            res matches Err(e) ==> e.is_fault(),
            final(self).quiet_after(old(self)),
            match res {
                Ok(()) => final(self).blocks() == old(self).blocks().update(
                    block as int,
                    BlockInfo { kind, used: HEADER_BYTES },
                ) && (old(self).consistent() ==> final(self).model() == with_kind(
                    old(self).model(),
                    block as int,
                    kind,
                )),
                Err(e) => e == StorageError::Io && !old(self).medium().reliable()
                    && final(self).blocks() == old(self).blocks(),
            },
    {
        proof {
            self.medium.lemma_inv();
            crate::medium::lemma_align(self.medium.spec_geometry(), 0);
            self.lemma_quiet_none();
            kind.lemma_parse_encoding();
            reveal(Geometry::aligned);
        }
        let ghost g = self.medium().spec_geometry();
        let ghost m = self.medium()@;
        let ghost a = self.model();
        let ghost ok = self.consistent();
        let ghost t0 = self.medium().trace();
        let bytes = kind.into_bytes();
        match self.medium.write(block, 0, &bytes) {
            Ok(()) => {},
            Err(e) => {
                return Err(e);
            },
        }
        self.blocks[block] = BlockInfo { kind, used: HEADER_BYTES };
        let ghost next = if ok {
            with_kind(a, block as int, kind)
        } else {
            a
        };
        self.model = Ghost(next);
        proof {
            self.medium.lemma_inv();
            assert(self.medium().trace().take(t0.len() as int) =~= t0);
            if ok {
                lemma_refines_facts(m, g, a);
                lemma_refines_claim(m, g, a, block as int, kind);
                lemma_files_same(m, self.medium()@, g, a, next);
                lemma_safe_none(t0, g, files(m, g), files(m, g));
                lemma_safe_push(t0, t0.len() as int, g, files(m, g), files(m, g), self.medium()@);
                self.lemma_consistent_from(old(self), block as int);
            }
        }
        Ok(())
    }

    /// Finds room for an object with `payload` bytes of payload in a block
    /// of the given kind. A block of that kind with enough room is taken
    /// first; failing that, the first undefined block is given the kind.
    /// Nothing is put into the block to avoid.
    fn allocate_object(&mut self, kind: BlockType, payload: usize, avoid: Option<usize>) -> (res:
        Result<(ObjectLocation, Ghost<int>), StorageError>)
        requires
            old(self).wf(),
            kind != BlockType::Undefined,
        ensures
            res matches Err(e) ==> e == StorageError::InsufficientSpace || e.is_fault(),
            final(self).quiet_after(old(self)),
            match res {
                Ok((location, k)) => crate::ll::objects::room_at(
                    old(self).medium().spec_geometry(),
                    location,
                    payload as int,
                ) && chosen(
                    old(self).blocks(),
                    old(self).medium().spec_geometry(),
                    avoid,
                    kind,
                    payload as int,
                    location.block as int,
                ) && location.offset == next_start(old(self).blocks(), kind, location.block as int)
                    && final(self).blocks() == old(self).blocks().update(
                    location.block as int,
                    BlockInfo { kind, used: location.offset },
                ) && (old(self).consistent() ==> vacant(
                    old(self).medium().spec_geometry(),
                    final(self).model().layout,
                    kind,
                    location,
                    k@,
                ) && k@ >= old(self).model().layout[location.block as int].objects.len()),
                Err(e) => (e == StorageError::InsufficientSpace && !has_room(
                    old(self).blocks(),
                    old(self).medium().spec_geometry(),
                    avoid,
                    kind,
                    payload as int,
                ) && final(self).blocks() == old(self).blocks()) || (e == StorageError::Io
                    && !old(self).medium().reliable()),
            },
    {
        proof {
            self.medium.lemma_inv();
            crate::medium::lemma_align(self.medium.spec_geometry(), 0);
            self.lemma_quiet_none();
        }
        let g = self.medium.geometry();
        let ghost a = self.model();
        let ghost ok = self.consistent();
        let header = g.object_header_bytes();
        if payload > g.block_size - HEADER_BYTES - header {
            return Err(StorageError::InsufficientSpace);
        }
        let need = header + payload;
        let mut b: usize = 0;
        while b < g.block_count
            invariant
                b <= g.block_count,
                self.wf(),
                *self == *old(self),
                self.medium().spec_geometry() == g,
                need == g.spec_object_header_bytes() + payload,
                ok == self.consistent(),
                a == self.model(),
                old(self).wf(),
                g.valid(),
                forall|x: int|
                    0 <= x < b ==> !takes(self.blocks(), g, avoid, kind, payload as int, x),
            decreases g.block_count - b,
        {
            let info = self.blocks[b];
            if info.kind == kind && need <= g.block_size - info.used && !is_avoided(avoid, b) {
                proof {
                    crate::medium::lemma_align(g, 0);
                    if ok {
                        lemma_refines_facts(self.medium()@, g, a);
                        lemma_layout_bounds(
                            self.medium()@,
                            g,
                            b as int,
                            a.layout[b as int],
                            a.layout[b as int].objects.len() as int,
                        );
                        assert(self.blocks()[b as int].used == end_of(
                            g,
                            a.layout[b as int].objects,
                        ));
                    }
                    self.lemma_quiet_none();
                    assert(self.blocks() =~= self.blocks().update(
                        b as int,
                        BlockInfo { kind, used: info.used },
                    ));
                }
                return Ok(
                    (ObjectLocation::new(b, info.used), Ghost(a.layout[b as int].objects.len() as int)),
                );
            }
            b += 1;
        }
        let mut u: usize = 0;
        while u < g.block_count
            invariant
                u <= g.block_count,
                self.wf(),
                *self == *old(self),
                self.medium().spec_geometry() == g,
                g.valid(),
                kind != BlockType::Undefined,
                old(self).wf(),
                payload <= g.block_size - HEADER_BYTES - g.spec_object_header_bytes(),
                forall|x: int|
                    0 <= x < self.blocks().len() ==> !takes(
                        self.blocks(),
                        g,
                        avoid,
                        kind,
                        payload as int,
                        x,
                    ),
                forall|x: int| 0 <= x < u ==> !spare(self.blocks(), avoid, x),
            decreases g.block_count - u,
        {
            if self.blocks[u].is_undefined() && !is_avoided(avoid, u) {
                match self.claim_block(u, kind) {
                    Ok(()) => {},
                    Err(e) => {
                        return Err(e);
                    },
                }
                proof {
                    crate::medium::lemma_align(g, 0);
                    if old(self).consistent() {
                        lemma_refines_facts(self.medium()@, g, self.model());
                        lemma_refines_facts(old(self).medium()@, g, old(self).model());
                        assert(block_laid_out(
                            old(self).medium()@,
                            g,
                            u as int,
                            old(self).model().layout[u as int],
                        ));
                    }
                }
                return Ok((ObjectLocation::new(u, HEADER_BYTES), Ghost(0)));
            }
            u += 1;
        }
        proof {
            self.lemma_quiet_none();
        }
        Err(StorageError::InsufficientSpace)
    }

    /// The object that `writer` stands on is being written as object number
    /// `k` of a block of the given kind.
    pub open spec fn writing(&self, writer: &ObjectWriter, kind: BlockType, k: int) -> bool {
        &&& self.consistent()
        &&& open_at(
            self.medium()@,
            self.medium().spec_geometry(),
            self.model(),
            writer.location().block as int,
            k,
            writer.location(),
        )
        &&& self.model().layout[writer.location().block as int].kind == kind
        &&& writer.wf(self.medium().spec_geometry())
        &&& writer.state() == ObjectState::Allocated
        &&& in_progress(
            self.medium()@,
            self.medium().spec_geometry(),
            writer.location(),
            writer.accepted(),
            writer.flushed(),
        )
    }

    /// Starts an object at `location`: the engine gives up the block for
    /// other objects until this one is complete, and allocates the object.
    fn begin_object(
        &mut self,
        location: ObjectLocation,
        Ghost(kind): Ghost<BlockType>,
        Ghost(k): Ghost<int>,
        Ghost(ok): Ghost<bool>,
    ) -> (res: Result<ObjectWriter, StorageError>)
        requires
            old(self).wf(),
            location.block < old(self).blocks().len(),
            ok ==> old(self).consistent() && kind != BlockType::Undefined && vacant(
                old(self).medium().spec_geometry(),
                old(self).model().layout,
                kind,
                location,
                k,
            ),
        ensures
            res matches Err(e) ==> e.is_fault(),
            final(self).moved_on(old(self)),
            ok ==> final(self).quiet_after(old(self)),
            final(self).blocks() == old(self).blocks().update(
                location.block as int,
                BlockInfo {
                    kind: old(self).blocks()[location.block as int].kind,
                    used: old(self).medium().spec_geometry().block_size,
                },
            ),
            match res {
                Ok(writer) => writer.wf(old(self).medium().spec_geometry()) && writer.location()
                    == location && writer.cursor() == 0 && writer.accepted() == Seq::<u8>::empty()
                    && (ok ==> final(self).writing(&writer, kind, k)),
                Err(e) => ok ==> e == StorageError::Io && !old(self).medium().reliable(),
            },
    {
        proof {
            self.medium.lemma_inv();
            crate::medium::lemma_align(self.medium.spec_geometry(), 0);
            self.lemma_quiet_none();
        }
        let g = self.medium.geometry();
        let ghost m = self.medium()@;
        let ghost a = self.model();
        let ghost t0 = self.medium().trace();
        let ghost b = location.block as int;
        self.blocks[location.block].used = g.block_size;
        let ghost sealed = *self;
        proof {
            assert(self.blocks() =~= old(self).blocks().update(
                location.block as int,
                BlockInfo { kind: old(self).blocks()[location.block as int].kind, used: g.block_size },
            ));
            assert(self.medium().trace().take(t0.len() as int) =~= t0);
            if ok {
                lemma_refines_facts(m, g, a);
                self.lemma_consistent_from(old(self), b);
                crate::model::steps::lemma_preserves_same(m, g, a);
                lemma_safe_none(t0, g, files(m, g), files(m, g));
                assert(same_entries(a, a));
                lemma_layout_bounds(m, g, b, a.layout[b], k);
                assert(crate::medium::blank_from(m[b], end_of(g, a.layout[b].objects)));
                let free = crate::model::steps::lemma_blank_header(m, g, location);
                ObjectState::Allocated.lemma_decode_encoding(g.granularity);
            }
        }
        let mut writer = match ObjectWriter::new(location, &mut self.medium) {
            Ok(writer) => writer,
            Err(e) => {
                proof {
                    if ok {
                        self.lemma_consistent_from(&sealed, b);
                    }
                }
                return Err(e);
            },
        };
        match writer.allocate(&mut self.medium) {
            Ok(()) => {},
            Err(e) => {
                proof {
                    if ok {
                        self.lemma_consistent_from(&sealed, b);
                    }
                }
                return Err(e);
            },
        }
        let ghost next = if ok {
            lemma_begin(m, g, a, b, k, location)
        } else {
            a
        };
        self.model = Ghost(next);
        proof {
            self.medium.lemma_inv();
            assert(self.medium().trace().take(t0.len() as int) =~= t0);
            if ok {
                lemma_safe_none(t0, g, files(m, g), files(m, g));
                lemma_safe_push(t0, t0.len() as int, g, files(m, g), files(m, g), self.medium()@);
                self.lemma_consistent_from(&sealed, b);
            }
        }
        Ok(writer)
    }

    /// Appends `data` to the payload of the object that is being written.
    fn append_payload(
        &mut self,
        writer: &mut ObjectWriter,
        data: &[u8],
        Ghost(kind): Ghost<BlockType>,
        Ghost(k): Ghost<int>,
        Ghost(ok): Ghost<bool>,
    ) -> (res: Result<(), StorageError>)
        requires
            old(self).wf(),
            old(writer).wf(old(self).medium().spec_geometry()),
            ok ==> old(self).writing(old(writer), kind, k),
        ensures
            res matches Err(e) ==> e == StorageError::InsufficientSpace || e.is_fault(),
            final(self).moved_on(old(self)),
            ok ==> final(self).quiet_after(old(self)),
            final(self).blocks() == old(self).blocks(),
            final(writer).location() == old(writer).location(),
            match res {
                Ok(()) => final(writer).wf(old(self).medium().spec_geometry()) && final(writer).accepted()
                    == old(writer).accepted() + data@ && (ok ==> final(self).writing(
                    final(writer),
                    kind,
                    k,
                )),
                Err(e) => ok ==> (e == StorageError::InsufficientSpace && old(writer).payload_start(
                    old(self).medium().spec_geometry(),
                ) + old(writer).cursor() + data@.len() > old(self).medium().spec_geometry().block_size)
                    || (e == StorageError::Io && !old(self).medium().reliable()),
            },
    {
        proof {
            self.medium.lemma_inv();
            crate::medium::lemma_align(self.medium.spec_geometry(), 0);
            self.lemma_quiet_none();
        }
        let ghost g = self.medium().spec_geometry();
        let ghost m = self.medium()@;
        let ghost a = self.model();
        let ghost t0 = self.medium().trace();
        let ghost location = writer.location();
        let ghost b = location.block as int;
        let ghost lo = writer.payload_start(g) + writer.flushed();
        let ghost hi = writer.payload_start(g) + g.spec_floor(writer.cursor() + data@.len());
        let ghost accepted = writer.accepted();
        let ghost flushed = writer.flushed();
        let ghost cursor = writer.cursor();
        let res = writer.write(&mut self.medium, data);
        proof {
            self.medium.lemma_inv();
            let t1 = self.medium().trace();
            if ok {
                lemma_refines_facts(m, g, a);
                assert forall|i: int| t0.len() <= i < t1.len() implies consistent(
                    #[trigger] t1[i],
                    g,
                ) && (files(t1[i], g) == files(m, g) || files(t1[i], g) == files(m, g)) by {
                    lemma_refines_payload(m, t1[i], g, a, b, k, lo, hi);
                }
                if t1.len() > t0.len() {
                    assert(self.medium()@ == t1[t1.len() - 1]);
                } else {
                    assert(t1 =~= t0);
                    assert(self.medium()@ == m);
                }
                lemma_refines_payload(m, self.medium()@, g, a, b, k, lo, hi);
                assert(same_entries(a, a));
                self.lemma_consistent_from(old(self), -1);
                if res is Ok {
                    let more = writer.accepted();
                    assert(more.subrange(0, accepted.len() as int) =~= accepted);
                    crate::medium::lemma_round_bound(g, flushed, cursor + data@.len());
                    lemma_progress_write(m, g, location, accepted, flushed, more, writer.flushed());
                }
            }
        }
        res
    }

    /// Since `before`, the engine has worked on one object. Where the
    /// storage was consistent, it still is; what was committed before is
    /// still in place; and at every step the medium was consistent and
    /// held the files that it held before, or those that it was to hold
    /// afterwards.
    pub open spec fn safe_after(&self, before: &Self, entry: Option<FileRecord>) -> bool {
        &&& self.moved_on(before)
        &&& before.consistent() ==> {
            &&& self.consistent()
            &&& preserves(
                before.medium()@,
                self.medium()@,
                self.medium().spec_geometry(),
                before.model().layout,
                self.model().layout,
            )
            &&& crash_safe(
                self.medium().trace(),
                before.medium().trace().len() as int,
                self.medium().spec_geometry(),
                before.files(),
                files_with(before.files(), entry),
            )
        }
    }

    /// A safe step after quiet steps is safe on the whole.
    pub proof fn lemma_safe_after_quiet(&self, mid: &Self, before: &Self, entry: Option<FileRecord>)
        requires
            mid.quiet_after(before),
            self.safe_after(mid, entry),
        ensures
            self.safe_after(before, entry),
    {
        let g = self.medium().spec_geometry();
        let t0 = before.medium().trace();
        let t1 = mid.medium().trace();
        let t2 = self.medium().trace();
        assert(t2.take(t0.len() as int) =~= t1.take(t0.len() as int)) by {
            assert(t2.take(t1.len() as int) == t1);
        }
        if before.consistent() {
            lemma_preserves_twice(
                before.medium()@,
                mid.medium()@,
                self.medium()@,
                g,
                before.model().layout,
                mid.model().layout,
                self.model().layout,
            );
            assert forall|i: int| t0.len() <= i < t2.len() implies consistent(#[trigger] t2[i], g)
                && (files(t2[i], g) == before.files() || files(t2[i], g) == files_with(
                before.files(),
                entry,
            )) by {
                if i < t1.len() {
                    assert(t2.take(t1.len() as int)[i] == t2[i]);
                    assert(t1[i] == t2[i]);
                }
            }
        }
    }

    /// Quiet steps are safe whatever is entered.
    pub proof fn lemma_quiet_is_safe(&self, before: &Self, entry: Option<FileRecord>)
        requires
            self.quiet_after(before),
        ensures
            self.safe_after(before, entry),
    {
    }

    /// Completes the object that is being written. Where `entry` is a
    /// file, the object is its metadata object, and completing it enters
    /// the file.
    fn finish_object(
        &mut self,
        writer: ObjectWriter,
        Ghost(kind): Ghost<BlockType>,
        Ghost(k): Ghost<int>,
        Ghost(entry): Ghost<Option<FileRecord>>,
        Ghost(ok): Ghost<bool>,
    ) -> (res: Result<(), StorageError>)
        requires
            old(self).wf(),
            writer.wf(old(self).medium().spec_geometry()),
            ok ==> old(self).writing(&writer, kind, k) && match entry {
                Some(r) => kind == BlockType::Metadata && enterable(
                    old(self).medium()@,
                    old(self).medium().spec_geometry(),
                    old(self).model(),
                    r,
                    writer.accepted(),
                ),
                None => kind == BlockType::Data,
            },
        ensures
            res matches Err(e) ==> e.is_fault(),
            final(self).moved_on(old(self)),
            final(self).blocks() == old(self).blocks(),
            ok ==> quiet_but_last(
                final(self).medium().trace(),
                old(self).medium().trace().len() as int,
                old(self).medium().spec_geometry(),
                old(self).files(),
            ) && final(self).safe_after(old(self), entry) && match res {
                Ok(()) => finished(
                    old(self).medium()@,
                    final(self).medium()@,
                    old(self).medium().spec_geometry(),
                    old(self).model(),
                    final(self).model(),
                    kind,
                    writer.location(),
                    k,
                    writer.accepted(),
                    entry,
                ),
                Err(e) => e == StorageError::Io && !old(self).medium().reliable() && final(self).quiet_after(
                    old(self),
                ),
            },
    {
        proof {
            self.medium.lemma_inv();
            crate::medium::lemma_align(self.medium.spec_geometry(), 0);
        }
        let ghost g = self.medium().spec_geometry();
        let ghost m = self.medium()@;
        let ghost a = self.model();
        let ghost t0 = self.medium().trace();
        let ghost location = writer.location();
        let ghost b = location.block as int;
        let ghost accepted = writer.accepted();
        let ghost flushed = writer.flushed();
        let ghost pending = writer.pending();
        let ghost start = payload_start(g, location);
        let ghost f0 = files(m, g);
        let ghost f1 = files_with(f0, entry);
        let ghost steps = closing_steps(
            m,
            g,
            location,
            true,
            accepted.len() as int,
            start + flushed,
            pending,
            ObjectState::Finalized,
        );
        let ghost models = if ok {
            lemma_closing(m, g, a, kind, location, k, accepted, flushed, entry)
        } else {
            (a, a)
        };
        proof {
            if ok {
                assert(pending =~= accepted.subrange(flushed, accepted.len() as int));
            }
        }
        let res = writer.finalize(&mut self.medium);
        let ghost done = self.medium().trace().len() - t0.len();
        let ghost next = if !ok || done == 0 {
            a
        } else if res is Ok {
            models.1
        } else {
            models.0
        };
        self.model = Ghost(next);
        proof {
            self.medium.lemma_inv();
            let t1 = self.medium().trace();
            assert(t1.take(t0.len() as int) =~= t0);
            if ok {
                lemma_refines_facts(m, g, a);
                Self::lemma_closed(
                    m,
                    self.medium()@,
                    g,
                    a,
                    models.0,
                    models.1,
                    next,
                    steps,
                    t0,
                    t1,
                    res is Ok,
                    kind,
                    location,
                    k,
                    accepted,
                    entry,
                );
                lemma_refines_facts(self.medium()@, g, next);
                self.lemma_finish_cache(old(self), b, k, res is Ok, location, accepted.len() as int);
            }
        }
        res
    }

    /// After the steps of closing an object, the engine still remembers
    /// of each block what is true of it: it had given up the block of the
    /// object.
    pub proof fn lemma_finish_cache(
        &self,
        before: &Self,
        b: int,
        k: int,
        all: bool,
        location: ObjectLocation,
        size: int,
    )
        requires
            before.consistent(),
            self.wf(),
            self.blocks() == before.blocks(),
            self.medium().spec_geometry() == before.medium().spec_geometry(),
            refines(self.medium()@, self.medium().spec_geometry(), self.model()),
            self.model().layout.len() == before.model().layout.len(),
            self.model().layout.len() == self.blocks().len(),
            0 <= b < self.blocks().len(),
            0 <= k == before.model().layout[b].objects.len() - 1,
            !before.model().layout[b].objects[k].header.fits(
                self.medium().spec_geometry(),
                before.model().layout[b].objects[k].location.offset as int,
            ),
            forall|x: int|
                0 <= x < self.model().layout.len() ==> (#[trigger] self.model().layout[x]).kind
                    == before.model().layout[x].kind,
            forall|x: int|
                0 <= x < self.model().layout.len() && x != b ==> #[trigger] self.model().layout[x]
                    == before.model().layout[x],
        ensures
            self.consistent(),
            self.blocks()[b].used == self.medium().spec_geometry().block_size,
    {
        reveal(ObjectInfo::end);
        assert forall|x: int| 0 <= x < self.blocks().len() implies (#[trigger] self.blocks()[x]).kind
            == self.model().layout[x].kind && (self.blocks()[x].used == end_of(
            self.medium().spec_geometry(),
            self.model().layout[x].objects,
        ) || self.blocks()[x].used == self.medium().spec_geometry().block_size) by {
            assert(self.blocks()[x] == before.blocks()[x]);
            assert(self.model().layout[x].kind == before.model().layout[x].kind);
        }
    }

    /// What holds after the steps of closing an object, as far as they
    /// went.
    pub proof fn lemma_closed(
        m: Contents,
        m2: Contents,
        g: Geometry,
        a: Model,
        mid: Model,
        last: Model,
        next: Model,
        steps: Seq<Contents>,
        t0: Seq<Contents>,
        t1: Seq<Contents>,
        all: bool,
        kind: BlockType,
        location: ObjectLocation,
        k: int,
        payload: Seq<u8>,
        entry: Option<FileRecord>,
    )
        requires
            refines(m, g, a),
            closing(m, g, a, mid, last, steps, kind, location, k, payload, entry),
            0 <= t1.len() - t0.len() <= steps.len(),
            t1 == t0 + steps.take(t1.len() - t0.len()),
            m2 == (if t1.len() == t0.len() {
                m
            } else {
                steps[t1.len() - t0.len() - 1]
            }),
            all <==> t1.len() - t0.len() == steps.len(),
            next == (if t1.len() == t0.len() {
                a
            } else if all {
                last
            } else {
                mid
            }),
        ensures
            refines(m2, g, next),
            preserves(m, m2, g, a.layout, next.layout),
            next.layout.len() == a.layout.len(),
            forall|x: int| 0 <= x < next.layout.len() ==> (#[trigger] next.layout[x]).kind
                == a.layout[x].kind,
            forall|x: int| 0 <= x < next.layout.len() && x != location.block ==> #[trigger] next.layout[x]
                == a.layout[x],
            crash_safe(t1, t0.len() as int, g, files(m, g), files_with(files(m, g), entry)),
            quiet_but_last(t1, t0.len() as int, g, files(m, g)),
            all ==> finished(m, m2, g, a, next, kind, location, k, payload, entry),
            !all ==> same_entries(a, next) && next.records == a.records && next.owner == a.owner
                && files(m2, g) == files(m, g) && crash_safe(
                t1,
                t0.len() as int,
                g,
                files(m, g),
                files(m, g),
            ),
    {
        let done = t1.len() - t0.len();
        assert forall|i: int| t0.len() <= i < t1.len() implies consistent(#[trigger] t1[i], g) && (
        files(t1[i], g) == files(m, g) || files(t1[i], g) == files_with(files(m, g), entry)) && (
        !all ==> files(t1[i], g) == files(m, g)) && (i < t1.len() - 1 ==> files(t1[i], g) == files(
            m,
            g,
        )) by {
            let j = i - t0.len();
            assert(t1[i] == steps.take(done)[j]);
            assert(steps.take(done)[j] == steps[j]);
            if j < steps.len() - 1 {
                assert(refines(steps[j], g, mid));
            } else {
                assert(refines(steps[j], g, last));
            }
        }
        if done == 0 {
            crate::model::steps::lemma_preserves_same(m, g, a);
            assert(same_entries(a, a));
        } else if !all {
            assert(refines(steps[done - 1], g, mid));
        }
    }

    /// Finds room for an object whose payload is `head` followed by `body`
    /// in a block of the given kind, allocates the object and writes its
    /// payload.
    fn prepare_object(
        &mut self,
        kind: BlockType,
        head: &[u8],
        body: &[u8],
        avoid: Option<usize>,
        Ghost(ok): Ghost<bool>,
    ) -> (res: Result<(ObjectWriter, Ghost<int>), StorageError>)
        requires
            old(self).wf(),
            kind != BlockType::Undefined,
            ok ==> old(self).consistent(),
        ensures
            res matches Err(e) ==> e == StorageError::InsufficientSpace || e.is_fault(),
            final(self).moved_on(old(self)),
            ok ==> final(self).quiet_after(old(self)),
            match res {
                Ok((writer, k)) => writer.wf(old(self).medium().spec_geometry())
                    && writer.accepted() == head@ + body@ && writer.location().block < final(self).blocks().len()
                    && chosen(
                    old(self).blocks(),
                    old(self).medium().spec_geometry(),
                    avoid,
                    kind,
                    (head@.len() + body@.len()) as int,
                    writer.location().block as int,
                ) && writer.location().offset == next_start(
                    old(self).blocks(),
                    kind,
                    writer.location().block as int,
                ) && final(self).blocks() == old(self).blocks().update(
                    writer.location().block as int,
                    BlockInfo { kind, used: old(self).medium().spec_geometry().block_size },
                ) && (ok ==> final(self).writing(&writer, kind, k@) && !old(self).model().owner.dom().contains(
                    writer.location(),
                ) && k@ >= old(self).model().layout[writer.location().block as int].objects.len()),
                Err(e) => ok ==> (e == StorageError::InsufficientSpace && !has_room(
                    old(self).blocks(),
                    old(self).medium().spec_geometry(),
                    avoid,
                    kind,
                    (head@.len() + body@.len()) as int,
                )) || (e == StorageError::Io && !old(self).medium().reliable()),
            },
    {
        proof {
            self.medium.lemma_inv();
            crate::medium::lemma_align(self.medium.spec_geometry(), 0);
        }
        let g = self.medium.geometry();
        if head.len() > g.block_size || body.len() > g.block_size {
            proof {
                self.lemma_quiet_none();
            }
            return Err(StorageError::InsufficientSpace);
        }
        let payload = head.len() + body.len();
        let (location, k) = match self.allocate_object(kind, payload, avoid) {
            Ok(found) => found,
            Err(e) => {
                return Err(e);
            },
        };
        let ghost s1 = *self;
        proof {
            assert(self.blocks()[location.block as int].used == location.offset);
            if ok {
                lemma_refines_facts(self.medium()@, g, self.model());
                lemma_vacant_unclaimed(self.medium()@, g, self.model(), location);
            }
        }
        let begun = self.begin_object(location, Ghost(kind), k, Ghost(ok));
        let ghost s2 = *self;
        proof {
            self.lemma_moved_twice(&s1, old(self));
            if ok {
                self.lemma_quiet_twice(&s1, old(self));
            }
            assert(self.blocks() =~= old(self).blocks().update(
                location.block as int,
                BlockInfo { kind, used: g.block_size },
            ));
        }
        let mut writer = match begun {
            Ok(writer) => writer,
            Err(e) => {
                return Err(e);
            },
        };
        let first = self.append_payload(&mut writer, head, Ghost(kind), k, Ghost(ok));
        let ghost s3 = *self;
        proof {
            self.lemma_moved_twice(&s2, old(self));
            if ok {
                self.lemma_quiet_twice(&s2, old(self));
            }
        }
        match first {
            Ok(()) => {},
            Err(e) => {
                return Err(e);
            },
        }
        let second = self.append_payload(&mut writer, body, Ghost(kind), k, Ghost(ok));
        proof {
            self.lemma_moved_twice(&s3, old(self));
            if ok {
                self.lemma_quiet_twice(&s3, old(self));
            }
        }
        match second {
            Ok(()) => {},
            Err(e) => {
                return Err(e);
            },
        }
        proof {
            assert(writer.accepted() =~= head@ + body@);
        }
        Ok((writer, k))
    }

    /// What the writing of an object with `payload` bytes of payload did to
    /// what the engine remembers of the blocks: it succeeded only where a
    /// block took the object, and failed for want of room only where none
    /// did.
    pub open spec fn placed(
        &self,
        before: &Self,
        avoid: Option<usize>,
        kind: BlockType,
        payload: int,
        done: bool,
        full: bool,
    ) -> bool {
        let after = cache_after(
            before.blocks(),
            before.medium().spec_geometry(),
            avoid,
            kind,
            payload,
        );
        &&& done ==> after == Some(self.blocks())
        &&& full ==> after is None
    }

    /// Writes one object whose payload is `head` followed by `body` into a
    /// block of the given kind, and returns where it is.
    fn write_object(
        &mut self,
        kind: BlockType,
        head: &[u8],
        body: &[u8],
        avoid: Option<usize>,
        Ghost(entry): Ghost<Option<FileRecord>>,
        Ghost(ok): Ghost<bool>,
    ) -> (res: Result<(ObjectLocation, Ghost<int>), StorageError>)
        requires
            old(self).wf(),
            kind != BlockType::Undefined,
            ok ==> old(self).consistent() && match entry {
                Some(r) => kind == BlockType::Metadata && enterable(
                    old(self).medium()@,
                    old(self).medium().spec_geometry(),
                    old(self).model(),
                    r,
                    head@ + body@,
                ),
                None => kind == BlockType::Data,
            },
        ensures
            res matches Err(e) ==> e == StorageError::InsufficientSpace || e.is_fault(),
            final(self).moved_on(old(self)),
            res matches Ok((location, _)) ==> avoid != Some(location.block),
            ok && res is Ok ==> quiet_but_last(
                final(self).medium().trace(),
                old(self).medium().trace().len() as int,
                old(self).medium().spec_geometry(),
                old(self).files(),
            ),
            ok ==> final(self).safe_after(old(self), entry) && final(self).placed(
                old(self),
                avoid,
                kind,
                (head@.len() + body@.len()) as int,
                res is Ok,
                lacks_room(res),
            ) && match res {
                Ok((location, k)) => stored(
                    old(self).medium()@,
                    final(self).medium()@,
                    old(self).medium().spec_geometry(),
                    old(self).model(),
                    final(self).model(),
                    kind,
                    location,
                    k@,
                    head@ + body@,
                    entry,
                ) && !old(self).model().owner.dom().contains(location),
                Err(e) => (e == StorageError::InsufficientSpace || (e == StorageError::Io && !old(self).medium().reliable()))
                    && final(self).quiet_after(old(self)),
            },
    {
        proof {
            self.medium.lemma_inv();
            crate::medium::lemma_align(self.medium.spec_geometry(), 0);
        }
        let g = self.medium.geometry();
        let prepared = self.prepare_object(kind, head, body, avoid, Ghost(ok));
        let ghost s4 = *self;
        proof {
            if ok {
                self.lemma_quiet_is_safe(old(self), entry);
            }
        }
        let (writer, k) = match prepared {
            Ok(prepared) => prepared,
            Err(e) => {
                return Err(e);
            },
        };
        let location = writer.place();
        proof {
            if ok {
                match entry {
                    Some(r) => {
                        lemma_enterable_kept(
                            old(self).medium()@,
                            self.medium()@,
                            g,
                            old(self).model(),
                            self.model(),
                            r,
                            head@ + body@,
                        );
                    },
                    None => {},
                }
            }
        }
        let res = self.finish_object(writer, Ghost(kind), k, Ghost(entry), Ghost(ok));
        let ghost s5 = *self;
        proof {
            self.lemma_moved_twice(&s4, old(self));
            if ok {
                lemma_quiet_join(
                    s4.medium().trace(),
                    self.medium().trace(),
                    old(self).medium().trace().len() as int,
                    g,
                    old(self).files(),
                );
                self.lemma_safe_after_quiet(&s4, old(self), entry);
                if res is Err {
                    self.lemma_quiet_twice(&s4, old(self));
                }
            }
        }
        match res {
            Ok(()) => {},
            Err(e) => {
                return Err(e);
            },
        }
        self.settle(location, head.len(), body.len(), Ghost(kind), k, Ghost(ok));
        proof {
            lemma_chosen_unique(
                old(self).blocks(),
                g,
                avoid,
                kind,
                (head@.len() + body@.len()) as int,
                location.block as int,
            );
            assert(self.blocks() =~= filled(
                old(self).blocks(),
                g,
                kind,
                (head@.len() + body@.len()) as int,
                location.block as int,
            ));
            if ok {
                lemma_stored_after_quiet(
                    old(self).medium()@,
                    s4.medium()@,
                    self.medium()@,
                    g,
                    old(self).model(),
                    s4.model(),
                    self.model(),
                    kind,
                    location,
                    k@,
                    head@ + body@,
                    entry,
                );
            }
        }
        Ok((location, k))
    }

    /// Takes note of where the object that was finished ends: the block
    /// is open for further objects again.
    fn settle(
        &mut self,
        location: ObjectLocation,
        head: usize,
        body: usize,
        Ghost(kind): Ghost<BlockType>,
        Ghost(k): Ghost<int>,
        Ghost(ok): Ghost<bool>,
    )
        requires
            old(self).wf(),
            location.block < old(self).blocks().len(),
            ok ==> old(self).consistent() && holds(old(self).model().layout, kind, location, k)
                && old(self).model().layout[location.block as int].objects.len() == k + 1
                && old(self).model().layout[location.block as int].objects[k] == object(
                location,
                ObjectState::Finalized,
                head + body,
            ) && end_of(
                old(self).medium().spec_geometry(),
                old(self).model().layout[location.block as int].objects,
            ) == payload_start(old(self).medium().spec_geometry(), location) + old(self).medium().spec_geometry().spec_align(
                head + body,
            ),
        ensures
            final(self).wf(),
            final(self).medium() == old(self).medium(),
            final(self).model() == old(self).model(),
            ok ==> final(self).consistent(),
            crate::ll::objects::room_at(
                old(self).medium().spec_geometry(),
                location,
                head + body,
            ) ==> final(self).blocks() == old(self).blocks().update(
                location.block as int,
                BlockInfo {
                    kind: old(self).blocks()[location.block as int].kind,
                    used: old(self).medium().spec_geometry().spec_align(
                        location.offset + old(self).medium().spec_geometry().spec_object_header_bytes()
                            + head + body,
                    ) as usize,
                },
            ),
    {
        proof {
            self.medium.lemma_inv();
            crate::medium::lemma_align(self.medium.spec_geometry(), 0);
        }
        let g = self.medium.geometry();
        let header = g.object_header_bytes();
        if location.offset <= g.block_size && header <= g.block_size - location.offset && head
            <= g.block_size - location.offset - header && body <= g.block_size - location.offset
            - header - head {
            let end = location.offset + header + head + body;
            if end <= g.block_size {
                let used = g.align(end);
                proof {
                    crate::medium::lemma_aligned_sum(g, g.block_size as int, 0);
                    crate::medium::lemma_round_bound(g, g.block_size as int, end as int);
                    if ok {
                        lemma_refines_facts(self.medium()@, g, self.model());
                        lemma_held_header(
                            self.medium()@,
                            g,
                            self.model().layout,
                            location.block as int,
                            k,
                        );
                        crate::medium::lemma_aligned_sum(
                            g,
                            location.offset as int,
                            g.spec_object_header_bytes(),
                        );
                        crate::medium::lemma_align_shift(
                            g,
                            payload_start(g, location),
                            (head + body) as int,
                        );
                    }
                }
                if used >= HEADER_BYTES {
                    self.blocks[location.block].used = used;
                }
                proof {
                    assert(used >= HEADER_BYTES ==> self.blocks() =~= old(self).blocks().update(
                        location.block as int,
                        BlockInfo { kind: old(self).blocks()[location.block as int].kind, used },
                    ));
                }
            }
        }
        proof {
            if ok {
                self.lemma_consistent_from(old(self), location.block as int);
            }
        }
    }

    /// The hits of a scan for `path` are being deleted, from the last to
    /// the first, but for the one to keep: those at `positions` from number
    /// `from` on are done.
    pub open spec fn clearing(
        &self,
        start: &Self,
        path: Seq<u8>,
        found: Seq<ObjectLocation>,
        positions: Seq<(int, int)>,
        from: int,
        keep: Option<(int, int)>,
    ) -> bool {
        let g = self.medium().spec_geometry();
        &&& start.consistent()
        &&& self.consistent()
        &&& self.moved_on(start)
        &&& hit_list(start.medium()@, g, start.model().layout, path, found, positions)
        &&& forall|b: int, i: int| #[trigger]
            is_hit(start.medium()@, g, start.model().layout, path, b, i) ==> positions.contains(
                (b, i),
            )
        &&& keep matches Some(at) ==> is_hit(
            start.medium()@,
            g,
            start.model().layout,
            path,
            at.0,
            at.1,
        )
        &&& 0 <= from <= positions.len()
        &&& hits_left(
            start.medium()@,
            self.medium()@,
            g,
            start.model().layout,
            self.model().layout,
            path,
            positions,
            from,
            keep,
        )
        &&& crash_safe(
            self.medium().trace(),
            start.medium().trace().len() as int,
            g,
            start.files(),
            files_left(start.medium()@, g, start.model().layout, path, keep),
        )
    }

    /// While hits are being deleted, a scan finds the files it found, or
    /// those that are to be left; once all are done, it finds those.
    pub proof fn lemma_clearing_files(
        &self,
        start: &Self,
        path: Seq<u8>,
        found: Seq<ObjectLocation>,
        positions: Seq<(int, int)>,
        from: int,
        keep: Option<(int, int)>,
    )
        requires
            self.clearing(start, path, found, positions, from, keep),
        ensures
            self.files() == start.files() || self.files() == files_left(
                start.medium()@,
                self.medium().spec_geometry(),
                start.model().layout,
                path,
                keep,
            ),
            from == 0 ==> self.files() == files_left(
                start.medium()@,
                self.medium().spec_geometry(),
                start.model().layout,
                path,
                keep,
            ),
            from == positions.len() ==> self.files() == start.files(),
    {
        let g = self.medium().spec_geometry();
        lemma_refines_facts(start.medium()@, g, start.model());
        lemma_refines_facts(self.medium()@, g, self.model());
        lemma_layout_unique(start.medium()@, g, start.model().layout);
        lemma_layout_unique(self.medium()@, g, self.model().layout);
        lemma_files_left(
            start.medium()@,
            self.medium()@,
            g,
            start.model().layout,
            self.model().layout,
            path,
            found,
            positions,
            from,
            keep,
        );
    }

    /// Deletes the hit before those that are done, or passes it by if it
    /// is the one to keep.
    fn clear_hit(
        &mut self,
        location: ObjectLocation,
        skip: bool,
        Ghost(start): Ghost<Self>,
        Ghost(path): Ghost<Seq<u8>>,
        Ghost(found): Ghost<Seq<ObjectLocation>>,
        Ghost(positions): Ghost<Seq<(int, int)>>,
        Ghost(from): Ghost<int>,
        Ghost(keep): Ghost<Option<(int, int)>>,
        Ghost(ok): Ghost<bool>,
    ) -> (res: Result<(), StorageError>)
        requires
            old(self).wf(),
            ok ==> old(self).clearing(&start, path, found, positions, from, keep) && 0 < from
                && location == found[from - 1] && (skip <==> keep == Some(positions[from - 1])),
        ensures
            res matches Err(e) ==> e.is_fault(),
            final(self).moved_on(old(self)),
            final(self).blocks() == old(self).blocks(),
            ok ==> {
                &&& final(self).consistent()
                &&& final(self).moved_on(&start)
                &&& crash_safe(
                    final(self).medium().trace(),
                    start.medium().trace().len() as int,
                    start.medium().spec_geometry(),
                    start.files(),
                    files_left(
                        start.medium()@,
                        start.medium().spec_geometry(),
                        start.model().layout,
                        path,
                        keep,
                    ),
                )
                &&& (final(self).files() == start.files() || final(self).files() == files_left(
                    start.medium()@,
                    start.medium().spec_geometry(),
                    start.model().layout,
                    path,
                    keep,
                ))
                &&& final(self).only_deleted_since(old(self))
                &&& skip ==> *final(self) == *old(self)
                &&& !skip ==> final(self).deleted_file_since(old(self), location, res is Ok)
                &&& res is Ok && !skip ==> !is_entry(
                    final(self).model().layout,
                    positions[from - 1].0,
                    positions[from - 1].1,
                )
                &&& match res {
                    Ok(()) => final(self).clearing(&start, path, found, positions, from - 1, keep),
                    Err(e) => e == StorageError::Io && !start.medium().reliable(),
                }
            },
    {
        proof {
            self.medium.lemma_inv();
            crate::medium::lemma_align(self.medium.spec_geometry(), 0);
            self.lemma_quiet_none();
        }
        let ghost g = self.medium().spec_geometry();
        let ghost m0 = start.medium()@;
        let ghost l0 = start.model().layout;
        let ghost m = self.medium()@;
        let ghost a = self.model();
        let ghost f0 = start.files();
        let ghost f1 = files_left(m0, g, l0, path, keep);
        let ghost eb = positions[from - 1].0;
        let ghost ei = positions[from - 1].1;
        proof {
            if ok {
                self.lemma_clearing_files(&start, path, found, positions, from, keep);
                lemma_refines_facts(m0, g, start.model());
                lemma_refines_facts(m, g, a);
                assert(is_hit(m0, g, l0, path, eb, ei));
                assert forall|p: Seq<u8>| #[trigger] is_hit(m0, g, l0, p, eb, ei) implies p
                    == path by {
                    lemma_hit_iff(m0, g, start.model(), p, eb, ei);
                    lemma_hit_iff(m0, g, start.model(), path, eb, ei);
                }
                assert(same_entries(a, a));
                lemma_shrink_same(a, a);
                lemma_hits_of_entries(m, m, g, a, a, eb, ei);
            }
        }
        if skip {
            proof {
                if ok {
                    lemma_hits_left_step(
                        m0,
                        m,
                        m,
                        g,
                        l0,
                        a.layout,
                        a.layout,
                        path,
                        positions,
                        from,
                        keep,
                        false,
                    );
                }
            }
            return Ok(());
        }
        proof {
            if ok {
                // The hit is still there: it is the entry of a live file.
                assert(still_hit(positions, from, keep, eb, ei)) by {
                    if exists|t: int| from <= t < positions.len() && #[trigger] positions[t] == (
                        eb,
                        ei,
                    ) {
                        let t = choose|t: int|
                            from <= t < positions.len() && #[trigger] positions[t] == (eb, ei);
                        assert(scanned_before(
                            positions[from - 1].0,
                            positions[from - 1].1,
                            positions[t].0,
                            positions[t].1,
                        ));
                    }
                }
                assert(is_hit(m, g, a.layout, path, eb, ei));
                lemma_hit_iff(m, g, a, path, eb, ei);
                // Once its name object is deleted, it is no hit any more.
                lemma_delete_name(m, g, a, eb, ei);
                lemma_delete_name_hits(m, g, a, eb, ei);
                let m1 = state_set(
                    m,
                    g,
                    a.records[a.layout[eb].objects[ei].location].name_at,
                    ObjectState::Deleted,
                );
                let a1 = name_deleted(a, eb, ei);
                lemma_hits_left_step(
                    m0,
                    m,
                    m1,
                    g,
                    l0,
                    a.layout,
                    a1.layout,
                    path,
                    positions,
                    from,
                    keep,
                    true,
                );
                lemma_refines_facts(m1, g, a1);
                lemma_layout_unique(m0, g, l0);
                lemma_layout_unique(m1, g, a1.layout);
                lemma_files_left(
                    m0,
                    m1,
                    g,
                    l0,
                    a1.layout,
                    path,
                    found,
                    positions,
                    from - 1,
                    keep,
                );
            }
        }
        let res = self.delete_file_at(location, Ghost(eb), Ghost(ei), Ghost(ok));
        proof {
            if ok {
                self.lemma_marked_only(
                    old(self),
                    places_of(a.records[location], location),
                    0,
                    self.medium().trace().len() - old(self).medium().trace().len(),
                );
                self.lemma_moved_twice(old(self), &start);
                lemma_safe_join(
                    old(self).medium().trace(),
                    self.medium().trace(),
                    start.medium().trace().len() as int,
                    g,
                    f0,
                    f1,
                    files(m, g),
                    gone_files(m, g, a, eb, ei),
                );
                if res is Ok {
                    lemma_hits_left_step(
                        m0,
                        m,
                        self.medium()@,
                        g,
                        l0,
                        a.layout,
                        self.model().layout,
                        path,
                        positions,
                        from,
                        keep,
                        true,
                    );
                }
            }
        }
        res
    }

    /// Deletes hit number `i` of those that were found, unless it is the
    /// one to keep. Tells whether it was deleted.
    fn clear_step(
        &mut self,
        found: &Vec<ObjectLocation>,
        i: usize,
        keep: Option<ObjectLocation>,
        Ghost(start): Ghost<Self>,
        Ghost(path): Ghost<Seq<u8>>,
        Ghost(positions): Ghost<Seq<(int, int)>>,
        Ghost(keep_at): Ghost<Option<(int, int)>>,
        Ghost(ok): Ghost<bool>,
    ) -> (res: Result<bool, StorageError>)
        requires
            old(self).wf(),
            i < found@.len(),
            ok ==> old(self).clearing(&start, path, found@, positions, i + 1, keep_at) && kept_is(
                start.model().layout,
                keep,
                keep_at,
            ),
        ensures
            res matches Err(e) ==> e.is_fault(),
            final(self).moved_on(old(self)),
            final(self).blocks() == old(self).blocks(),
            ok ==> {
                &&& final(self).consistent()
                &&& final(self).moved_on(&start)
                &&& crash_safe(
                    final(self).medium().trace(),
                    start.medium().trace().len() as int,
                    start.medium().spec_geometry(),
                    start.files(),
                    files_left(
                        start.medium()@,
                        start.medium().spec_geometry(),
                        start.model().layout,
                        path,
                        keep_at,
                    ),
                )
                &&& (final(self).files() == start.files() || final(self).files() == files_left(
                    start.medium()@,
                    start.medium().spec_geometry(),
                    start.model().layout,
                    path,
                    keep_at,
                ))
                &&& final(self).only_deleted_since(old(self))
                &&& keep_at != Some(positions[i as int]) ==> final(self).deleted_file_since(
                    old(self),
                    found@[i as int],
                    res is Ok,
                )
                &&& match res {
                    Ok(done) => final(self).clearing(&start, path, found@, positions, i as int, keep_at)
                        && (!done <==> keep_at == Some(positions[i as int])) && (done ==> !is_entry(
                        final(self).model().layout,
                        positions[i as int].0,
                        positions[i as int].1,
                    )) && (!done ==> *final(self) == *old(self)),
                    Err(e) => e == StorageError::Io && !start.medium().reliable(),
                }
            },
    {
        let location = found[i];
        let skip = match keep {
            Some(kept) => kept.block == location.block && kept.offset == location.offset,
            None => false,
        };
        proof {
            if ok {
                // The same place is the same object.
                let g = start.medium().spec_geometry();
                let m0 = start.medium()@;
                let l0 = start.model().layout;
                lemma_refines_facts(m0, g, start.model());
                let here = positions[i as int];
                assert(is_hit(m0, g, l0, path, here.0, here.1));
                lemma_held_header(m0, g, l0, here.0, here.1);
                match keep_at {
                    Some(at) => {
                        lemma_held_header(m0, g, l0, at.0, at.1);
                        if skip {
                            lemma_same_place(m0, g, l0, here.0, here.1, at.1);
                        }
                    },
                    None => {},
                }
            }
        }
        match self.clear_hit(
            location,
            skip,
            Ghost(start),
            Ghost(path),
            Ghost(found@),
            Ghost(positions),
            Ghost(i as int + 1),
            Ghost(keep_at),
            Ghost(ok),
        ) {
            Ok(()) => Ok(!skip),
            Err(e) => Err(e),
        }
    }

    /// Deletes every file stored under `path` but the one at `keep`, from
    /// the last that a scan meets to the first. Returns the number of files
    /// that were deleted.
    fn delete_others(
        &mut self,
        path: &[u8],
        keep: Option<ObjectLocation>,
        Ghost(keep_at): Ghost<Option<(int, int)>>,
        Ghost(ok): Ghost<bool>,
    ) -> (res: Result<usize, StorageError>)
        requires
            old(self).wf(),
            ok ==> old(self).consistent() && match keep {
                Some(location) => keep_at matches Some(at) && is_hit(
                    old(self).medium()@,
                    old(self).medium().spec_geometry(),
                    old(self).model().layout,
                    path@,
                    at.0,
                    at.1,
                ) && old(self).model().layout[at.0].objects[at.1].location == location,
                None => keep_at is None,
            },
        ensures
            res matches Err(e) ==> e.is_fault(),
            final(self).moved_on(old(self)),
            final(self).blocks() == old(self).blocks(),
            ok ==> {
                &&& final(self).consistent()
                &&& crash_safe(
                    final(self).medium().trace(),
                    old(self).medium().trace().len() as int,
                    old(self).medium().spec_geometry(),
                    old(self).files(),
                    files_left(
                        old(self).medium()@,
                        old(self).medium().spec_geometry(),
                        old(self).model().layout,
                        path@,
                        keep_at,
                    ),
                )
                &&& final(self).only_deleted_since(old(self))
                &&& forall|b: int, i: int| #[trigger]
                    only_hit(
                        old(self).medium()@,
                        old(self).medium().spec_geometry(),
                        old(self).model().layout,
                        path@,
                        b,
                        i,
                    ) && keep_at is None ==> final(self).deleted_file_since(
                        old(self),
                        old(self).model().layout[b].objects[i].location,
                        res is Ok,
                    )
                &&& match res {
                    Ok(n) => (n == 0 ==> final(self).unchanged(old(self))) && (forall|b: int, i: int| #[trigger]
                        is_hit(
                            old(self).medium()@,
                            old(self).medium().spec_geometry(),
                            old(self).model().layout,
                            path@,
                            b,
                            i,
                        ) && keep_at != Some((b, i)) ==> !is_entry(final(self).model().layout, b, i))
                        && (forall|b: int, i: int| #[trigger]
                        is_hit(
                            final(self).medium()@,
                            old(self).medium().spec_geometry(),
                            final(self).model().layout,
                            path@,
                            b,
                            i,
                        ) <==> keep_at == Some((b, i))) && final(self).files() == files_left(
                        old(self).medium()@,
                        old(self).medium().spec_geometry(),
                        old(self).model().layout,
                        path@,
                        keep_at,
                    ) && (n == 0 ==> forall|b: int, i: int| #[trigger]
                        is_hit(
                            old(self).medium()@,
                            old(self).medium().spec_geometry(),
                            old(self).model().layout,
                            path@,
                            b,
                            i,
                        ) ==> keep_at == Some((b, i))) && (n > 0 ==> old(self).files().dom().contains(
                        path@,
                    )),
                    Err(e) => e == StorageError::Io && !old(self).medium().reliable() && (final(self).files()
                        == old(self).files() || final(self).files() == files_left(
                        old(self).medium()@,
                        old(self).medium().spec_geometry(),
                        old(self).model().layout,
                        path@,
                        keep_at,
                    )),
                }
            },
    {
        proof {
            self.medium.lemma_inv();
            crate::medium::lemma_align(self.medium.spec_geometry(), 0);
            self.lemma_quiet_none();
        }
        let ghost g = self.medium().spec_geometry();
        let ghost m0 = self.medium()@;
        let ghost l0 = self.model().layout;
        let ghost f0 = self.files();
        let ghost f1 = files_left(m0, g, l0, path@, keep_at);
        let ghost t0 = self.medium().trace();
        let (found, positions) = match self.find(path, false) {
            Ok(found) => found,
            Err(e) => {
                proof {
                    self.lemma_unchanged(old(self));
                    lemma_safe_none(t0, g, f0, f1);
                    lemma_shrink_same(self.model(), self.model());
                    if ok {
                        assert forall|b: int, i: int| #[trigger]
                            only_hit(m0, g, l0, path@, b, i) implies self.deleted_file_since(
                            old(self),
                            l0[b].objects[i].location,
                            false,
                        ) by {
                            let at = l0[b].objects[i].location;
                            self.lemma_marked_one(
                                old(self),
                                places_of(old(self).model().records[at], at),
                                0,
                                false,
                            );
                        }
                    }
                }
                return Err(e);
            },
        };
        let ghost start = *self;
        proof {
            self.lemma_unchanged(old(self));
            lemma_shrink_same(self.model(), self.model());
            if ok {
                lemma_hits_left_all(m0, g, l0, path@, positions@, keep_at);
                lemma_safe_none(t0, g, f0, f1);
                if positions@.len() > 0 {
                    // The first hit is what a scan finds for the path.
                    let first = lemma_first_hit_exists(
                        m0,
                        g,
                        l0,
                        path@,
                        positions@[0].0,
                        positions@[0].1,
                    );
                    lemma_refines_facts(m0, g, self.model());
                    lemma_layout_unique(m0, g, l0);
                    lemma_first_hit_unique(m0, g, l0, path@, first.0, first.1);
                }
            }
        }
        proof {
            if ok {
                assert forall|b: int, x: int| #[trigger]
                    only_hit(m0, g, l0, path@, b, x) implies positions@.len() == 1 && found@[0]
                    == l0[b].objects[x].location by {
                    assert(is_hit(m0, g, l0, path@, b, x));
                    assert(positions@.contains((b, x)));
                    if positions@.len() > 1 {
                        assert(is_hit(m0, g, l0, path@, positions@[0].0, positions@[0].1));
                        assert(is_hit(m0, g, l0, path@, positions@[1].0, positions@[1].1));
                        assert(scanned_before(
                            positions@[0].0,
                            positions@[0].1,
                            positions@[1].0,
                            positions@[1].1,
                        ));
                    }
                    assert(positions@[0] == (b, x));
                }
            }
        }
        let mut deleted: usize = 0;
        let mut i = found.len();
        while i > 0
            invariant
                i <= found@.len(),
                deleted <= found@.len() - i,
                found@.len() <= usize::MAX,
                ok ==> found@.len() == positions@.len(),
                self.moved_on(old(self)),
                self.blocks() == old(self).blocks(),
                self.wf(),
                ok ==> self.clearing(&start, path@, found@, positions@, i as int, keep_at),
                ok ==> kept_is(start.model().layout, keep, keep_at),
                ok ==> (deleted == 0 ==> forall|t: int|
                    i <= t < positions@.len() ==> keep_at == Some(#[trigger] positions@[t])),
                ok ==> self.only_deleted_since(old(self)),
                ok && positions@.len() == 1 && keep_at is None ==> (i == 1 ==> self.unchanged(
                    old(self),
                )) && (i == 0 ==> self.deleted_file_since(old(self), found@[0], true)),
                ok ==> forall|b: int, x: int| #[trigger]
                    only_hit(
                        old(self).medium()@,
                        old(self).medium().spec_geometry(),
                        old(self).model().layout,
                        path@,
                        b,
                        x,
                    ) ==> positions@.len() == 1 && found@[0] == old(self).model().layout[b].objects[x].location,
                ok ==> forall|t: int|
                    i <= t < positions@.len() && keep_at != Some(#[trigger] positions@[t])
                        ==> !is_entry(self.model().layout, positions@[t].0, positions@[t].1),
                ok ==> (deleted == 0 ==> self.unchanged(old(self))),
                start.medium().spec_geometry() == old(self).medium().spec_geometry(),
                start.medium().trace() == old(self).medium().trace(),
                start.medium().reliable() == old(self).medium().reliable(),
                start.medium()@ == old(self).medium()@,
                start.model() == old(self).model(),
            decreases i,
        {
            i -= 1;
            let ghost before = *self;
            let step = self.clear_step(
                &found,
                i,
                keep,
                Ghost(start),
                Ghost(path@),
                Ghost(positions@),
                Ghost(keep_at),
                Ghost(ok),
            );
            proof {
                self.lemma_moved_twice(&before, old(self));
                if ok {
                    self.lemma_only_deleted_twice(&before, old(self));
                    assert forall|t: int|
                        i < t < positions@.len() && keep_at != Some(
                            #[trigger] positions@[t],
                        ) implies !is_entry(
                        self.model().layout,
                        positions@[t].0,
                        positions@[t].1,
                    ) by {
                        assert(!is_entry(before.model().layout, positions@[t].0, positions@[t].1));
                    }
                }
            }
            match step {
                Ok(done) => {
                    if done {
                        deleted += 1;
                    }
                },
                Err(e) => {
                    return Err(e);
                },
            }
        }
        proof {
            if ok {
                self.lemma_clearing_files(&start, path@, found@, positions@, 0, keep_at);
                assert forall|b: int, x: int| #[trigger]
                    is_hit(m0, g, l0, path@, b, x) && keep_at != Some((b, x)) implies !is_entry(
                    self.model().layout,
                    b,
                    x,
                ) by {
                    assert(positions@.contains((b, x)));
                    let t = choose|t: int| 0 <= t < positions@.len() && positions@[t] == (b, x);
                    assert(keep_at != Some(positions@[t]));
                }
                assert forall|b: int, x: int| #[trigger]
                    is_hit(self.medium()@, g, self.model().layout, path@, b, x) <==> keep_at
                        == Some((b, x)) by {
                    if is_hit(m0, g, l0, path@, b, x) {
                        assert(positions@.contains((b, x)));
                        let t = choose|t: int| 0 <= t < positions@.len() && positions@[t] == (b, x);
                        assert(positions@[t] == (b, x));
                    }
                }
                if deleted == 0 {
                    assert forall|b: int, x: int| #[trigger]
                        is_hit(m0, g, l0, path@, b, x) implies keep_at == Some((b, x)) by {
                        assert(positions@.contains((b, x)));
                    }
                } else {
                    assert(positions@.len() > 0);
                }
            }
        }
        Ok(deleted)
    }

    /// Removes the file stored under `path`. With the first step that
    /// takes effect the file is gone, and a loss of power at any step leaves
    /// the file either as it was or gone; every other file is as it was.
    /// Nothing is written but the states of objects, which are marked
    /// deleted: where one metadata object names the path, those of its
    /// file, in the order name, contents, metadata object. Under a path
    /// that holds no file, nothing is written at all. No object is moved,
    /// so that a walk through the directory can go on afterwards
    /// (`Directory::lemma_walk_kept`).
    pub fn delete(&mut self, path: &str) -> (res: Result<(), StorageError>)
        requires
            old(self).wf(),
        ensures
            res matches Err(e) ==> e == StorageError::NotFound || e.is_fault(),
            final(self).moved_on(old(self)),
            final(self).blocks() == old(self).blocks(),
            old(self).consistent() ==> {
                &&& final(self).consistent()
                &&& final(self).only_deleted_since(old(self))
                &&& forall|b: int, i: int| #[trigger]
                    only_hit(
                        old(self).medium()@,
                        old(self).medium().spec_geometry(),
                        old(self).model().layout,
                        path.spec_bytes(),
                        b,
                        i,
                    ) ==> final(self).deleted_file_since(
                        old(self),
                        old(self).model().layout[b].objects[i].location,
                        res is Ok,
                    )
                &&& res == Err::<(), StorageError>(StorageError::NotFound) ==> final(self).unchanged(
                    old(self),
                )
                &&& crash_safe(
                    final(self).medium().trace(),
                    old(self).medium().trace().len() as int,
                    old(self).medium().spec_geometry(),
                    old(self).files(),
                    old(self).files().remove(path.spec_bytes()),
                )
                &&& match res {
                    Ok(()) => old(self).files().dom().contains(path.spec_bytes()) && final(self).files()
                        == old(self).files().remove(path.spec_bytes()),
                    Err(e) => (e == StorageError::NotFound && !old(self).files().dom().contains(
                        path.spec_bytes(),
                    ) && final(self).files() == old(self).files()) || (e == StorageError::Io
                        && !old(self).medium().reliable() && (final(self).files() == old(self).files()
                        || final(self).files() == old(self).files().remove(path.spec_bytes()))),
                }
            },
    {
        let ghost ok = self.consistent();
        let ghost g = self.medium().spec_geometry();
        let ghost m0 = self.medium()@;
        let ghost l0 = self.model().layout;
        let res = self.delete_others(path.as_bytes(), None, Ghost(None), Ghost(ok));
        proof {
            if ok {
                lemma_refines_facts(m0, g, old(self).model());
                lemma_layout_unique(m0, g, l0);
                if res == Ok::<usize, StorageError>(0) {
                    if lookup_in(m0, g, l0, path.spec_bytes()) is Some {
                        let (b, i) = choose|b: int, i: int|
                            is_first_hit(m0, g, l0, path.spec_bytes(), b, i);
                        assert(is_hit(m0, g, l0, path.spec_bytes(), b, i));
                    }
                    assert(old(self).files().remove(path.spec_bytes()) =~= old(self).files());
                }
            }
        }
        match res {
            Ok(0) => Err(StorageError::NotFound),
            Ok(_) => Ok(()),
            Err(e) => Err(e),
        }
    }

    /// An object of a data block that was stored was a quiet step.
    pub proof fn lemma_quiet_of_stored(
        &self,
        before: &Self,
        location: ObjectLocation,
        k: int,
        payload: Seq<u8>,
    )
        requires
            before.consistent(),
            self.safe_after(before, None),
            stored(
                before.medium()@,
                self.medium()@,
                self.medium().spec_geometry(),
                before.model(),
                self.model(),
                BlockType::Data,
                location,
                k,
                payload,
                None,
            ),
        ensures
            self.quiet_after(before),
    {
    }

    /// Writes the object that holds the name of a file.
    fn store_name(&mut self, name: &[u8], avoid: Option<usize>, Ghost(ok): Ghost<bool>) -> (res:
        Result<(ObjectLocation, Ghost<FileRecord>), StorageError>)
        requires
            old(self).wf(),
            ok ==> old(self).consistent(),
        ensures
            res matches Err(e) ==> e == StorageError::InsufficientSpace || e.is_fault(),
            final(self).moved_on(old(self)),
            res matches Ok((_, r)) ==> clear_of(r@, avoid),
            ok ==> final(self).placed(
                old(self),
                avoid,
                BlockType::Data,
                name@.len() as int,
                res is Ok,
                lacks_room(res),
            ) && final(self).quiet_after(old(self)) && match res {
                Ok((location, r)) => pending(
                    final(self).medium()@,
                    old(self).medium().spec_geometry(),
                    final(self).model(),
                    r@,
                ) && r@.name == name@ && r@.name_at == location && r@.chunks.len() == 0
                    && r@.contents() == Seq::<u8>::empty() && r@.first_link() == None::<
                    ObjectLocation,
                >,
                Err(e) => e == StorageError::InsufficientSpace || (e == StorageError::Io && !old(self).medium().reliable()),
            },
    {
        let ghost g = self.medium().spec_geometry();
        let empty: [u8; 0] = [];
        let res = self.write_object(BlockType::Data, name, &empty, avoid, Ghost(None), Ghost(ok));
        match res {
            Ok((location, k)) => {
                let ghost r = FileRecord {
                    name_at: location,
                    name_index: k@,
                    name: name@,
                    live: true,
                    chunks: Seq::empty(),
                };
                proof {
                    if ok {
                        assert(name@ + empty@ =~= name@);
                        self.lemma_quiet_of_stored(old(self), location, k@, name@);
                        let made = lemma_pending_name(
                            old(self).medium()@,
                            self.medium()@,
                            g,
                            old(self).model(),
                            self.model(),
                            location,
                            k@,
                            name@,
                        );
                    }
                }
                Ok((location, Ghost(r)))
            },
            Err(e) => Err(e),
        }
    }

    /// Writes one data object of a pending file, in front of those that
    /// were written before.
    fn store_chunk(
        &mut self,
        next: Option<ObjectLocation>,
        chunk: &[u8],
        avoid: Option<usize>,
        Ghost(r): Ghost<FileRecord>,
        Ghost(ok): Ghost<bool>,
    ) -> (res: Result<(ObjectLocation, Ghost<FileRecord>), StorageError>)
        requires
            old(self).wf(),
            ok ==> old(self).consistent() && pending(
                old(self).medium()@,
                old(self).medium().spec_geometry(),
                old(self).model(),
                r,
            ) && r.first_link() == next,
        ensures
            res matches Err(e) ==> e == StorageError::InsufficientSpace || e.is_fault(),
            final(self).moved_on(old(self)),
            res matches Ok((_, more)) ==> (clear_of(r, avoid) ==> clear_of(more@, avoid)),
            ok ==> final(self).placed(
                old(self),
                avoid,
                BlockType::Data,
                old(self).medium().spec_geometry().spec_object_location_bytes() + chunk@.len(),
                res is Ok,
                lacks_room(res),
            ) && final(self).quiet_after(old(self)) && match res {
                Ok((location, more)) => pending(
                    final(self).medium()@,
                    old(self).medium().spec_geometry(),
                    final(self).model(),
                    more@,
                ) && more@.name == r.name && more@.name_at == r.name_at && more@.contents()
                    == chunk@ + r.contents() && more@.first_link() == Some(location)
                    && more@.chunks.len() == r.chunks.len() + 1,
                Err(e) => e == StorageError::InsufficientSpace || (e == StorageError::Io && !old(self).medium().reliable()),
            },
    {
        proof {
            self.medium.lemma_inv();
            crate::medium::lemma_align(self.medium.spec_geometry(), 0);
        }
        let g = self.medium.geometry();
        let (link, count) = link_into_bytes(&g, next);
        proof {
            if ok {
                lemma_refines_facts(self.medium()@, g, self.model());
                if r.chunks.len() > 0 {
                    assert(chunk_held(self.medium()@, g, self.model().layout, r, 0));
                    crate::model::state::lemma_held_addressable(
                        self.medium()@,
                        g,
                        self.model().layout,
                        BlockType::Data,
                        r.chunks[0].at,
                        r.chunks[0].index,
                    );
                }
                lemma_parse_link_encoding(g, r.first_link());
            }
        }
        let res = self.write_object(
            BlockType::Data,
            slice_subrange(&link, 0, count),
            chunk,
            avoid,
            Ghost(None),
            Ghost(ok),
        );
        match res {
            Ok((location, k)) => {
                let ghost more = with_chunk(r, location, k@, chunk@);
                proof {
                    if clear_of(r, avoid) && avoid is Some {
                        assert forall|x: int| 0 <= x < more.chunks.len() implies (
                        #[trigger] more.chunks[x]).at.block != avoid.unwrap() by {
                            if x > 0 {
                                assert(more.chunks[x] == r.chunks[x - 1]);
                            }
                        }
                    }
                    if ok {
                        self.lemma_quiet_of_stored(
                            old(self),
                            location,
                            k@,
                            link_encoding(g, next) + chunk@,
                        );
                        let made = lemma_pending_chunk(
                            old(self).medium()@,
                            self.medium()@,
                            g,
                            old(self).model(),
                            self.model(),
                            r,
                            location,
                            k@,
                            chunk@,
                        );
                    }
                }
                Ok((location, Ghost(more)))
            },
            Err(e) => Err(e),
        }
    }

    /// Writes the contents of a pending file: its data objects, from the
    /// last to the first, so that each can hold the link to the next.
    fn store_chunks(
        &mut self,
        data: &[u8],
        avoid: Option<usize>,
        Ghost(r0): Ghost<FileRecord>,
        Ghost(ok): Ghost<bool>,
    ) -> (res: Result<(Option<ObjectLocation>, Ghost<FileRecord>), StorageError>)
        requires
            old(self).wf(),
            ok ==> old(self).consistent() && pending(
                old(self).medium()@,
                old(self).medium().spec_geometry(),
                old(self).model(),
                r0,
            ) && r0.chunks.len() == 0 && r0.contents() == Seq::<u8>::empty(),
        ensures
            res matches Err(e) ==> e == StorageError::InsufficientSpace || e.is_fault(),
            final(self).moved_on(old(self)),
            res matches Ok((_, r)) ==> (clear_of(r0, avoid) ==> clear_of(r@, avoid)),
            ok ==> (res is Ok ==> cache_after_chunks(
                old(self).blocks(),
                old(self).medium().spec_geometry(),
                avoid,
                data@.len() as int,
            ) == Some(final(self).blocks())) && (lacks_room(res) ==> cache_after_chunks(
                old(self).blocks(),
                old(self).medium().spec_geometry(),
                avoid,
                data@.len() as int,
            ) is None) && final(self).quiet_after(old(self)) && match res {
                Ok((next, r)) => pending(
                    final(self).medium()@,
                    old(self).medium().spec_geometry(),
                    final(self).model(),
                    r@,
                ) && r@.name == r0.name && r@.name_at == r0.name_at && r@.contents() == data@
                    && r@.first_link() == next && r@.chunks.len() <= data@.len(),
                Err(e) => e == StorageError::InsufficientSpace || (e == StorageError::Io && !old(self).medium().reliable()),
            },
    {
        proof {
            self.medium.lemma_inv();
            crate::medium::lemma_align(self.medium.spec_geometry(), 0);
            self.lemma_quiet_none();
        }
        let g = self.medium.geometry();
        let max_chunk = g.block_size - HEADER_BYTES - g.object_header_bytes()
            - g.object_location_bytes();
        let mut next: Option<ObjectLocation> = None;
        let mut end = data.len();
        let ghost mut r = r0;
        proof {
            assert(data@.subrange(end as int, data@.len() as int) =~= Seq::<u8>::empty());
        }
        while end > 0
            invariant
                end <= data@.len(),
                self.wf(),
                self.moved_on(old(self)),
                self.medium().spec_geometry() == g,
                g == old(self).medium().spec_geometry(),
                g.valid(),
                0 < max_chunk <= g.block_size,
                max_chunk == spec_max_chunk(g),
                clear_of(r0, avoid) ==> clear_of(r, avoid),
                ok ==> cache_after_chunks(old(self).blocks(), g, avoid, data@.len() as int)
                    == cache_after_chunks(self.blocks(), g, avoid, end as int),
                ok ==> self.quiet_after(old(self)) && old(self).consistent() && pending(
                    self.medium()@,
                    g,
                    self.model(),
                    r,
                ) && r.name == r0.name && r.name_at == r0.name_at && r.contents()
                    == data@.subrange(end as int, data@.len() as int) && r.first_link() == next
                    && r.chunks.len() <= data@.len() - end,
            decreases end,
        {
            let tail = end % max_chunk;
            let size = if tail == 0 {
                max_chunk
            } else {
                tail
            };
            assert(size <= end) by (nonlinear_arith)
                requires
                    0 < max_chunk,
                    0 < end,
                    tail == (end as int) % (max_chunk as int),
                    size == (if tail == 0 {
                        max_chunk
                    } else {
                        tail
                    }),
            ;
            let start = end - size;
            let ghost before = *self;
            let step = self.store_chunk(
                next,
                slice_subrange(data, start, end),
                avoid,
                Ghost(r),
                Ghost(ok),
            );
            proof {
                lemma_chunk_size(g, end as int);
                assert(size == chunk_size(g, end as int));
                self.lemma_moved_twice(&before, old(self));
                if ok {
                    self.lemma_quiet_twice(&before, old(self));
                }
            }
            match step {
                Ok((location, more)) => {
                    proof {
                        assert(data@.subrange(start as int, end as int) + data@.subrange(
                            end as int,
                            data@.len() as int,
                        ) =~= data@.subrange(start as int, data@.len() as int));
                        r = more@;
                    }
                    next = Some(location);
                    end = start;
                },
                Err(e) => {
                    return Err(e);
                },
            }
        }
        proof {
            assert(data@.subrange(0, data@.len() as int) =~= data@);
        }
        Ok((next, Ghost(r)))
    }

    /// Writes the metadata object of a pending file. Once it is finalized,
    /// the file is entered.
    fn store_entry(
        &mut self,
        name: &[u8],
        name_location: ObjectLocation,
        next: Option<ObjectLocation>,
        avoid: Option<usize>,
        Ghost(r): Ghost<FileRecord>,
        Ghost(ok): Ghost<bool>,
    ) -> (res: Result<(ObjectLocation, Ghost<int>), StorageError>)
        requires
            old(self).wf(),
            ok ==> old(self).consistent() && pending(
                old(self).medium()@,
                old(self).medium().spec_geometry(),
                old(self).model(),
                r,
            ) && r.name == name@ && r.name_at == name_location && r.first_link() == next
                && r.chunks.len() <= spec_max_hops(old(self).medium().spec_geometry()),
        ensures
            res matches Err(e) ==> e == StorageError::InsufficientSpace || e.is_fault(),
            final(self).moved_on(old(self)),
            res matches Ok((location, _)) ==> avoid != Some(location.block),
            ok && res is Ok ==> quiet_but_last(
                final(self).medium().trace(),
                old(self).medium().trace().len() as int,
                old(self).medium().spec_geometry(),
                old(self).files(),
            ),
            ok ==> final(self).placed(
                old(self),
                avoid,
                BlockType::Metadata,
                spec_metadata_bytes(old(self).medium().spec_geometry()),
                res is Ok,
                lacks_room(res),
            ) && final(self).safe_after(old(self), Some(r)) && match res {
                Ok((location, k)) => stored(
                    old(self).medium()@,
                    final(self).medium()@,
                    old(self).medium().spec_geometry(),
                    old(self).model(),
                    final(self).model(),
                    BlockType::Metadata,
                    location,
                    k@,
                    metadata_encoding(
                        old(self).medium().spec_geometry(),
                        path_hash(name@),
                        name_location,
                        next,
                    ),
                    Some(r),
                ),
                Err(e) => (e == StorageError::InsufficientSpace || (e == StorageError::Io && !old(self).medium().reliable()))
                    && final(self).quiet_after(old(self)),
            },
    {
        proof {
            self.medium.lemma_inv();
            crate::medium::lemma_align(self.medium.spec_geometry(), 0);
        }
        let g = self.medium.geometry();
        let hash = hash_path(name);
        let mut payload: Vec<u8> = Vec::new();
        let mut i: usize = 0;
        while i < HASH_BYTES
            invariant
                i <= HASH_BYTES,
                payload@.len() == i,
                forall|x: int| 0 <= x < i ==> payload@[x] == crate::ll::bytes::le_digit(hash as int, x),
            decreases HASH_BYTES - i,
        {
            payload.push(digit_le(hash as usize, i));
            i += 1;
        }
        let (name_bytes, name_count) = name_location.into_bytes(&g);
        payload.extend_from_slice(slice_subrange(&name_bytes, 0, name_count));
        let (link, count) = link_into_bytes(&g, next);
        payload.extend_from_slice(slice_subrange(&link, 0, count));
        let empty: [u8; 0] = [];
        proof {
            let wanted = metadata_encoding(g, path_hash(name@), name_location, next);
            assert(payload@ =~= wanted);
            assert(payload@ + empty@ =~= wanted);
            if ok {
                lemma_refines_facts(self.medium()@, g, self.model());
                if r.chunks.len() > 0 {
                    assert(chunk_held(self.medium()@, g, self.model().layout, r, 0));
                    crate::model::state::lemma_held_addressable(
                        self.medium()@,
                        g,
                        self.model().layout,
                        BlockType::Data,
                        r.chunks[0].at,
                        r.chunks[0].index,
                    );
                }
                lemma_parse_link_encoding(g, next);
                crate::model::state::lemma_held_addressable(
                    self.medium()@,
                    g,
                    self.model().layout,
                    BlockType::Data,
                    r.name_at,
                    r.name_index,
                );
                name_location.lemma_from_bytes_encoding(g);
            }
        }
        self.write_object(
            BlockType::Metadata,
            payload.as_slice(),
            &empty,
            avoid,
            Ghost(Some(r)),
            Ghost(ok),
        )
    }

    /// Writes the object that holds the name of a file, and the data
    /// objects that hold its contents.
    fn store_contents(&mut self, name: &[u8], data: &[u8], avoid: Option<usize>, Ghost(ok): Ghost<bool>) -> (res:
        Result<(ObjectLocation, Option<ObjectLocation>, Ghost<FileRecord>), StorageError>)
        requires
            old(self).wf(),
            ok ==> old(self).consistent(),
        ensures
            res matches Err(e) ==> e == StorageError::InsufficientSpace || e.is_fault(),
            final(self).moved_on(old(self)),
            res matches Ok((_, _, r)) ==> clear_of(r@, avoid),
            ok ==> (res is Ok ==> cache_after_contents(
                old(self).blocks(),
                old(self).medium().spec_geometry(),
                avoid,
                name@.len() as int,
                data@.len() as int,
            ) == Some(final(self).blocks())) && (lacks_room(res) ==> cache_after_contents(
                old(self).blocks(),
                old(self).medium().spec_geometry(),
                avoid,
                name@.len() as int,
                data@.len() as int,
            ) is None) && final(self).quiet_after(old(self)) && match res {
                Ok((location, next, r)) => pending(
                    final(self).medium()@,
                    old(self).medium().spec_geometry(),
                    final(self).model(),
                    r@,
                ) && r@.name == name@ && r@.name_at == location && r@.contents() == data@
                    && r@.first_link() == next && r@.chunks.len() <= data@.len(),
                Err(e) => e == StorageError::InsufficientSpace || (e == StorageError::Io && !old(self).medium().reliable()),
            },
    {
        let named = self.store_name(name, avoid, Ghost(ok));
        let ghost s1 = *self;
        let (location, r0) = match named {
            Ok(named) => named,
            Err(e) => {
                return Err(e);
            },
        };
        let filled = self.store_chunks(data, avoid, r0, Ghost(ok));
        proof {
            self.lemma_moved_twice(&s1, old(self));
            if ok {
                self.lemma_quiet_twice(&s1, old(self));
            }
        }
        match filled {
            Ok((next, r)) => Ok((location, next, r)),
            Err(e) => Err(e),
        }
    }

    /// What the engine remembers of the blocks once `data` is stored under
    /// `name`: the file is written whole, to blocks that have room for its
    /// objects, before anything is deleted. `None` where the medium has no
    /// room for the file.
    pub open spec fn room_for(&self, avoid: Option<usize>, name: Seq<u8>, data: Seq<u8>) -> Option<
        Seq<BlockInfo>,
    > {
        if data.len() > spec_max_hops(self.medium().spec_geometry()) {
            None
        } else {
            cache_after_store(
                self.blocks(),
                self.medium().spec_geometry(),
                avoid,
                name.len() as int,
                data.len() as int,
            )
        }
    }

    /// Tells whether the blocks have room for a file with a name of `name`
    /// bytes and contents of `data` bytes, outside the block to avoid.
    fn fits(&self, name: usize, data: usize, avoid: Option<usize>) -> (res: bool)
        requires
            self.wf(),
        ensures
            res == (cache_after_store(
                self.blocks(),
                self.medium().spec_geometry(),
                avoid,
                name as int,
                data as int,
            ) is Some),
    {
        proof {
            self.medium.lemma_inv();
            crate::medium::lemma_align(self.medium.spec_geometry(), 0);
        }
        let g = self.medium.geometry();
        let mut blocks: Vec<BlockInfo> = Vec::new();
        let mut b: usize = 0;
        while b < self.blocks.len()
            invariant
                b <= self.blocks@.len(),
                blocks@ == self.blocks@.take(b as int),
            decreases self.blocks@.len() - b,
        {
            blocks.push(self.blocks[b]);
            assert(blocks@ =~= self.blocks@.take(b + 1));
            b += 1;
        }
        assert(blocks@ =~= self.blocks());
        if !place(&mut blocks, &g, avoid, BlockType::Data, name) {
            return false;
        }
        let ghost named = blocks@;
        let max_chunk = g.block_size - HEADER_BYTES - g.object_header_bytes()
            - g.object_location_bytes();
        let links = g.object_location_bytes();
        let mut end = data;
        while end > 0
            invariant
                end <= data,
                g.valid(),
                cache_wf(blocks@, g),
                0 < max_chunk <= g.block_size,
                max_chunk == spec_max_chunk(g),
                links == g.spec_object_location_bytes(),
                g == self.medium().spec_geometry(),
                cache_after_contents(self.blocks(), g, avoid, name as int, data as int)
                    == cache_after_chunks(named, g, avoid, data as int),
                cache_after_chunks(named, g, avoid, data as int) == cache_after_chunks(
                    blocks@,
                    g,
                    avoid,
                    end as int,
                ),
            decreases end,
        {
            let tail = end % max_chunk;
            let size = if tail == 0 {
                max_chunk
            } else {
                tail
            };
            proof {
                lemma_chunk_size(g, end as int);
                assert(size == chunk_size(g, end as int));
            }
            let ghost before = blocks@;
            let found = place(&mut blocks, &g, avoid, BlockType::Data, links + size);
            proof {
                assert(cache_after_chunks(before, g, avoid, end as int) == (match cache_after(
                    before,
                    g,
                    avoid,
                    BlockType::Data,
                    links + size,
                ) {
                    None => None::<Seq<BlockInfo>>,
                    Some(next) => cache_after_chunks(next, g, avoid, end - size),
                }));
            }
            if !found {
                return false;
            }
            end = end - size;
        }
        place(&mut blocks, &g, avoid, BlockType::Metadata, metadata_bytes(&g))
    }

    /// Writes the file: the object that holds its name, its data objects,
    /// and its metadata object, with which it is entered. Nothing is put
    /// into the block to avoid.
    fn write_file(&mut self, name: &[u8], data: &[u8], avoid: Option<usize>, Ghost(ok): Ghost<bool>) -> (res:
        Result<(ObjectLocation, Ghost<int>), StorageError>)
        requires
            old(self).wf(),
            ok ==> old(self).consistent(),
            data@.len() <= spec_max_hops(old(self).medium().spec_geometry()),
        ensures
            res matches Err(e) ==> e == StorageError::InsufficientSpace || e.is_fault(),
            final(self).moved_on(old(self)),
            ok ==> {
                &&& final(self).consistent()
                &&& crash_safe(
                    final(self).medium().trace(),
                    old(self).medium().trace().len() as int,
                    old(self).medium().spec_geometry(),
                    old(self).files(),
                    old(self).files().insert(name@, data@),
                )
                &&& res is Ok ==> cache_after_store(
                    old(self).blocks(),
                    old(self).medium().spec_geometry(),
                    avoid,
                    name@.len() as int,
                    data@.len() as int,
                ) == Some(final(self).blocks())
                &&& lacks_room(res) ==> cache_after_store(
                    old(self).blocks(),
                    old(self).medium().spec_geometry(),
                    avoid,
                    name@.len() as int,
                    data@.len() as int,
                ) is None
                &&& match res {
                    Ok((location, k)) => {
                        let b = location.block as int;
                        &&& is_entry(final(self).model().layout, b, k@)
                        &&& final(self).model().layout[b].objects[k@].location == location
                        &&& is_hit(
                            final(self).medium()@,
                            old(self).medium().spec_geometry(),
                            final(self).model().layout,
                            name@,
                            b,
                            k@,
                        )
                        &&& files_left(
                            final(self).medium()@,
                            old(self).medium().spec_geometry(),
                            final(self).model().layout,
                            name@,
                            Some((b, k@)),
                        ) == old(self).files().insert(name@, data@)
                        &&& added_entry(old(self).model(), final(self).model(), b, k@)
                        &&& quiet_but_last(
                            final(self).medium().trace(),
                            old(self).medium().trace().len() as int,
                            old(self).medium().spec_geometry(),
                            old(self).files(),
                        )
                        &&& avoid != Some(location.block)
                        &&& clear_of(final(self).model().records[location], avoid)
                        &&& (final(self).files() == old(self).files() || final(self).files()
                            == old(self).files().insert(name@, data@))
                    },
                    Err(e) => final(self).files() == old(self).files() && (e
                        == StorageError::InsufficientSpace || (e == StorageError::Io
                        && !old(self).medium().reliable())),
                }
            },
    {
        proof {
            self.medium.lemma_inv();
            crate::medium::lemma_align(self.medium.spec_geometry(), 0);
            self.lemma_quiet_none();
        }
        let ghost g = self.medium().spec_geometry();
        let ghost f0 = self.files();
        let ghost f1 = f0.insert(name@, data@);
        let ghost t0 = self.medium().trace();
        let written = self.store_contents(name, data, avoid, Ghost(ok));
        let ghost s2 = *self;
        proof {
            if ok {
                lemma_safe_wider(self.medium().trace(), t0.len() as int, g, f0, f1);
            }
        }
        let (name_location, next, r) = match written {
            Ok(written) => written,
            Err(e) => {
                return Err(e);
            },
        };
        let entered = self.store_entry(name, name_location, next, avoid, r, Ghost(ok));
        proof {
            self.lemma_moved_twice(&s2, old(self));
            if ok {
                if entered is Ok {
                    lemma_quiet_join(
                        s2.medium().trace(),
                        self.medium().trace(),
                        t0.len() as int,
                        g,
                        f0,
                    );
                }
                self.lemma_safe_after_quiet(&s2, old(self), Some(r@));
                if entered is Err {
                    self.lemma_quiet_twice(&s2, old(self));
                }
            }
        }
        let (meta_location, k) = match entered {
            Ok(entered) => entered,
            Err(e) => {
                return Err(e);
            },
        };
        let ghost b = meta_location.block as int;
        proof {
            if ok {
                // The new entry is a hit for the path, and leads to the data.
                let m3 = self.medium()@;
                let a3 = self.model();
                lemma_refines_facts(m3, g, a3);
                assert(is_entry(a3.layout, b, k@));
                lemma_hit_iff(m3, g, a3, name@, b, k@);
                lemma_entry_contents(m3, g, a3, b, k@);
                assert(files_left(m3, g, a3.layout, name@, Some((b, k@))) =~= f1);
                lemma_added_after_same(old(self).model(), s2.model(), a3, b, k@);
            }
        }
        Ok((meta_location, k))
    }

    /// Success is owed where blocks are free: wherever as many blocks are
    /// undefined as the file has objects (the object that holds its name,
    /// its data objects and its metadata object), the file has room, and a
    /// consistent storage on a medium that does not fail stores it. So it
    /// is on a freshly formatted medium for every file that the blocks
    /// behind the metadata blocks can hold in this way, and so it is again
    /// for every block that was cleared since.
    pub proof fn lemma_store_owed(&self, name: Seq<u8>, data: Seq<u8>)
        requires
            self.wf(),
            name.len() <= self.medium().spec_geometry().block_size - HEADER_BYTES
                - self.medium().spec_geometry().spec_object_header_bytes(),
            spares(self.blocks(), self.blocks().len() as int) >= chunk_count(
                self.medium().spec_geometry(),
                data.len() as int,
            ) + 2,
        ensures
            self.room_for(None, name, data) is Some,
    {
        let g = self.medium().spec_geometry();
        self.medium().lemma_inv();
        crate::medium::lemma_align(g, 0);
        lemma_chunk_count(g, data.len() as int);
        lemma_spares_bound(self.blocks(), self.blocks().len() as int, 0);
        lemma_room_for_spares(self.blocks(), g, name.len() as int, data.len() as int);
        let count = chunk_count(g, data.len() as int);
        let max = spec_max_chunk(g);
        assert(count * max <= g.block_count * g.block_size) by (nonlinear_arith)
            requires
                0 <= count <= g.block_count,
                0 <= max <= g.block_size,
        ;
    }

    /// Stores `data` under the name `name`, in place of what was stored
    /// there. Nothing is put into the block to avoid.
    fn put(&mut self, name: &[u8], data: &[u8], avoid: Option<usize>) -> (res: Result<
        (),
        StorageError,
    >)
        requires
            old(self).wf(),
        ensures
            res matches Err(e) ==> e == StorageError::InsufficientSpace || e.is_fault(),
            final(self).moved_on(old(self)),
            old(self).consistent() ==> {
                &&& final(self).consistent()
                &&& crash_safe(
                    final(self).medium().trace(),
                    old(self).medium().trace().len() as int,
                    old(self).medium().spec_geometry(),
                    old(self).files(),
                    old(self).files().insert(name@, data@),
                )
                &&& match res {
                    Ok(()) => final(self).files() == old(self).files().insert(
                        name@,
                        data@,
                    ) && old(self).room_for(avoid, name@, data@) == Some(final(self).blocks())
                        && final(self).stored_once(old(self), name@, avoid),
                    Err(e) => (e == StorageError::InsufficientSpace && final(self).unchanged(
                        old(self),
                    ) && old(self).room_for(avoid, name@, data@) is None)
                        || (e == StorageError::Io && !old(self).medium().reliable() && (final(self).files()
                        == old(self).files() || final(self).files() == old(self).files().insert(
                        name@,
                        data@,
                    ))),
                }
            },
    {
        proof {
            self.medium.lemma_inv();
            crate::medium::lemma_align(self.medium.spec_geometry(), 0);
            self.lemma_quiet_none();
        }
        let ghost ok = self.consistent();
        let g = self.medium.geometry();
        let ghost f0 = self.files();
        let ghost f1 = f0.insert(name@, data@);
        let ghost t0 = self.medium().trace();
        if data.len() as u64 > max_hops(&g) {
            proof {
                lemma_safe_none(t0, g, f0, f1);
            }
            return Err(StorageError::InsufficientSpace);
        }
        if !self.fits(name.len(), data.len(), avoid) {
            proof {
                lemma_safe_none(t0, g, f0, f1);
            }
            return Err(StorageError::InsufficientSpace);
        }
        let written = self.write_file(name, data, avoid, Ghost(ok));
        let ghost s3 = *self;
        let (meta_location, k) = match written {
            Ok(written) => written,
            Err(e) => {
                return Err(e);
            },
        };
        let ghost b = meta_location.block as int;
        let cleared = self.delete_others(
            name,
            Some(meta_location),
            Ghost(Some((b, k@))),
            Ghost(ok),
        );
        proof {
            self.lemma_moved_twice(&s3, old(self));
            if ok {
                lemma_safe_join(
                    s3.medium().trace(),
                    self.medium().trace(),
                    t0.len() as int,
                    g,
                    f0,
                    f1,
                    s3.files(),
                    f1,
                );
                if cleared is Ok {
                    self.lemma_stored_once(old(self), &s3, name@, avoid, b, k@);
                }
            }
        }
        match cleared {
            Ok(_) => Ok(()),
            Err(e) => Err(e),
        }
    }

    /// Since `before`, a file was stored under `path`: until its metadata
    /// object was finalized the medium held the files it had held, every
    /// write after that marked an object deleted, and in the end that one
    /// metadata object names the path and every entry that named it before
    /// is gone. No entry that came keeps
    /// the block to avoid in use.
    pub open spec fn stored_once(&self, before: &Self, path: Seq<u8>, avoid: Option<usize>) -> bool {
        let g = before.medium().spec_geometry();
        &&& exists|entered: int, b: int, i: int| #[trigger]
            entered_then_marked(
                self.medium().trace(),
                before.medium().trace().len() as int,
                entered,
                g,
                before.files(),
                path,
                b,
                i,
            ) && only_hit(self.medium()@, g, self.model().layout, path, b, i)
        &&& forall|b: int, i: int| #[trigger]
            is_hit(before.medium()@, g, before.model().layout, path, b, i) ==> !is_entry(
                self.model().layout,
                b,
                i,
            )
        &&& avoid matches Some(v) ==> tenants_shrink(before.model(), self.model(), v as int)
    }

    /// Once the file is written and every other entry for its path is
    /// deleted, it is stored once.
    pub proof fn lemma_stored_once(
        &self,
        before: &Self,
        mid: &Self,
        path: Seq<u8>,
        avoid: Option<usize>,
        b: int,
        k: int,
    )
        requires
            before.consistent(),
            mid.consistent(),
            mid.medium().spec_geometry() == before.medium().spec_geometry(),
            added_entry(before.model(), mid.model(), b, k),
            is_entry(mid.model().layout, b, k),
            avoid != Some(mid.model().layout[b].objects[k].location.block),
            clear_of(mid.model().records[mid.model().layout[b].objects[k].location], avoid),
            entries_shrink(mid.model(), self.model()),
            self.only_deleted_since(mid),
            self.moved_on(mid),
            mid.moved_on(before),
            quiet_but_last(
                mid.medium().trace(),
                before.medium().trace().len() as int,
                before.medium().spec_geometry(),
                before.files(),
            ),
            is_hit(mid.medium()@, mid.medium().spec_geometry(), mid.model().layout, path, b, k),
            forall|b2: int, i2: int| #[trigger]
                is_hit(
                    mid.medium()@,
                    mid.medium().spec_geometry(),
                    mid.model().layout,
                    path,
                    b2,
                    i2,
                ) && !(b2 == b && i2 == k) ==> !is_entry(self.model().layout, b2, i2),
            forall|b2: int, i2: int| #[trigger]
                is_hit(
                    self.medium()@,
                    mid.medium().spec_geometry(),
                    self.model().layout,
                    path,
                    b2,
                    i2,
                ) <==> b2 == b && i2 == k,
        ensures
            self.stored_once(before, path, avoid),
    {
        let g = before.medium().spec_geometry();
        lemma_refines_facts(before.medium()@, g, before.model());
        lemma_refines_facts(mid.medium()@, g, mid.model());
        assert forall|b2: int, i2: int| #[trigger]
            is_hit(before.medium()@, g, before.model().layout, path, b2, i2) implies !is_entry(
            self.model().layout,
            b2,
            i2,
        ) by {
            lemma_hit_iff(before.medium()@, g, before.model(), path, b2, i2);
            assert(is_entry(mid.model().layout, b2, i2));
            lemma_hit_iff(mid.medium()@, g, mid.model(), path, b2, i2);
            assert(is_hit(mid.medium()@, g, mid.model().layout, path, b2, i2));
        }
        assert(only_hit(self.medium()@, g, self.model().layout, path, b, k));
        let entered = mid.medium().trace().len() as int;
        mid.medium().lemma_inv();
        lemma_layout_unique(mid.medium()@, g, mid.model().layout);
        assert(self.medium().trace().take(entered)[entered - 1] == self.medium().trace()[entered
            - 1]);
        assert forall|x: int|
            before.medium().trace().len() <= x < entered - 1 implies files(
            #[trigger] self.medium().trace()[x],
            g,
        ) == before.files() by {
            assert(self.medium().trace().take(entered)[x] == self.medium().trace()[x]);
            assert(files(mid.medium().trace()[x], g) == before.files());
        }
        assert(entered_then_marked(
            self.medium().trace(),
            before.medium().trace().len() as int,
            entered,
            g,
            before.files(),
            path,
            b,
            k,
        ));
        if avoid is Some {
            let v = avoid.unwrap() as int;
            lemma_held_header(mid.medium()@, g, mid.model().layout, b, k);
            lemma_tenants_added(before.model(), mid.model(), v, b, k);
            lemma_tenants_of_entries(mid.model(), self.model(), v);
            lemma_tenants_twice(before.model(), mid.model(), self.model(), v);
        }
    }

    /// Stores `data` under `path`, in place of what was stored there. The
    /// new file is written and entered first; what was there before is
    /// deleted after that. A loss of power at any step leaves under `path`
    /// either what was there or `data`, whole; every other file is as it
    /// was. The file is stored exactly where the blocks have room for its
    /// objects (`room_for`), which is found out before anything is written:
    /// where they have not, nothing is written, and clearing blocks may make
    /// the room. Once the metadata object of the new file is finalized,
    /// nothing is written but the states of the objects that are deleted,
    /// and in the end one metadata object names the path.
    pub fn store(&mut self, path: &str, data: &[u8]) -> (res: Result<(), StorageError>)
        requires
            old(self).wf(),
        ensures
            res matches Err(e) ==> e == StorageError::InsufficientSpace || e.is_fault(),
            final(self).moved_on(old(self)),
            old(self).consistent() ==> {
                &&& final(self).consistent()
                &&& crash_safe(
                    final(self).medium().trace(),
                    old(self).medium().trace().len() as int,
                    old(self).medium().spec_geometry(),
                    old(self).files(),
                    old(self).files().insert(path.spec_bytes(), data@),
                )
                &&& match res {
                    Ok(()) => final(self).files() == old(self).files().insert(
                        path.spec_bytes(),
                        data@,
                    ) && old(self).room_for(None, path.spec_bytes(), data@) == Some(
                        final(self).blocks(),
                    ) && final(self).stored_once(old(self), path.spec_bytes(), None),
                    Err(e) => (e == StorageError::InsufficientSpace && final(self).unchanged(
                        old(self),
                    ) && old(self).room_for(None, path.spec_bytes(), data@) is None)
                        || (e == StorageError::Io && !old(self).medium().reliable() && (final(self).files()
                        == old(self).files() || final(self).files() == old(self).files().insert(
                        path.spec_bytes(),
                        data@,
                    ))),
                }
            },
    {
        self.put(path.as_bytes(), data, None)
    }

    /// Opens the file stored under the name `path` for reading.
    fn open(&mut self, path: &[u8]) -> (res: Result<Reader, StorageError>)
        requires
            old(self).wf(),
        ensures
            res matches Err(e) ==> e == StorageError::NotFound || e.is_fault(),
            final(self).unchanged(old(self)),
            old(self).consistent() ==> match res {
                Ok(reader) => old(self).files().dom().contains(path@)
                    && reader.remaining(old(self).medium()@, old(self).medium().spec_geometry())
                    == Some(old(self).files()[path@]) && reader.wf(
                    old(self).medium().spec_geometry(),
                ) && reader.current is None,
                Err(e) => (e == StorageError::NotFound && !old(self).files().dom().contains(
                    path@,
                )) || (e == StorageError::Io && !old(self).medium().reliable()),
            },
    {
        proof {
            self.medium.lemma_inv();
            crate::medium::lemma_align(self.medium.spec_geometry(), 0);
        }
        let ghost m = self.medium()@;
        let ghost a = self.model();
        let ghost ok = self.consistent();
        let g = self.medium.geometry();
        let location = match self.lookup(path) {
            Ok(location) => location,
            Err(e) => {
                return Err(e);
            },
        };
        proof {
            if ok {
                let (b, i) = choose|b: int, i: int|
                    is_first_hit(m, g, a.layout, path@, b, i)
                        && a.layout[b].objects[i].location == location;
                lemma_hit_iff(m, g, a, path@, b, i);
                lemma_entry_metadata(m, g, a, b, i);
                lemma_entry_contents(m, g, a, b, i);
            }
        }
        let meta = match MetadataObjectHeader::read(location, &mut self.medium) {
            Ok(meta) => meta,
            Err(e) => {
                return Err(e);
            },
        };
        let reader = Reader { current: None, next: meta.first_data, hops: max_hops(&g) };
        proof {
            if ok {
                let whole = chain_data(m, g, meta.first_data, spec_max_hops(g) as nat);
                assert(Seq::<u8>::empty() + whole.unwrap() =~= whole.unwrap());
            }
        }
        Ok(reader)
    }

    /// Reads the whole file stored under the name `path`.
    fn load(&mut self, path: &[u8]) -> (res: Result<Vec<u8>, StorageError>)
        requires
            old(self).wf(),
        ensures
            res matches Err(e) ==> e == StorageError::NotFound || e.is_fault(),
            final(self).unchanged(old(self)),
            old(self).consistent() ==> match res {
                Ok(bytes) => old(self).files().dom().contains(path@) && bytes@ == old(self).files()[path@],
                Err(e) => (e == StorageError::NotFound && !old(self).files().dom().contains(path@))
                    || (e == StorageError::Io && !old(self).medium().reliable()),
            },
    {
        let ghost g = self.medium().spec_geometry();
        let ghost m = self.medium()@;
        let ghost ok = self.consistent();
        let reader = match self.open(path) {
            Ok(reader) => reader,
            Err(e) => {
                return Err(e);
            },
        };
        let ghost whole = self.files()[path@];
        let mut bytes: Vec<u8> = Vec::new();
        let mut link = reader.next;
        let mut hops = reader.hops;
        proof {
            if ok {
                let rest = chain_data(m, g, link, hops as nat).unwrap();
                assert(Seq::<u8>::empty() + rest =~= rest);
                assert(bytes@ + rest =~= rest);
            }
        }
        while link.is_some()
            invariant
                old(self).wf(),
                self.unchanged(old(self)),
                g == old(self).medium().spec_geometry(),
                m == old(self).medium()@,
                ok == old(self).consistent(),
                whole == old(self).files()[path@],
                ok ==> old(self).files().dom().contains(path@),
                ok ==> chain_data(m, g, link, hops as nat) is Some,
                ok ==> bytes@ + chain_data(m, g, link, hops as nat).unwrap() == whole,
            decreases hops + (if link is Some { 1int } else { 0int }),
        {
            let ghost rest = chain_data(m, g, link, hops as nat);
            if hops == 0 {
                return Err(StorageError::Corrupted);
            }
            let location = link.unwrap();
            proof {
                self.medium.lemma_inv();
                crate::medium::lemma_align(g, 0);
            }
            let (data, mut part) = match DataObjectHeader::read(location, &mut self.medium) {
                Ok(read) => read,
                Err(e) => {
                    return Err(e);
                },
            };
            proof {
                self.medium.lemma_inv();
            }
            let mut chunk = match read_rest(&mut part, &mut self.medium) {
                Ok(chunk) => chunk,
                Err(e) => {
                    return Err(e);
                },
            };
            proof {
                if ok {
                    let tail = chain_data(m, g, data.next, (hops - 1) as nat).unwrap();
                    let whole_chunk = payload_at(m, g, location, data.object.object_size as int);
                    crate::ll::objects::lemma_payload_len(
                        m,
                        g,
                        location,
                        data.object.object_size as int,
                    );
                    assert(rest.unwrap() == chunk_at(m, g, location, data.object.object_size as int)
                        + tail);
                    assert(chunk@ =~= chunk_at(m, g, location, data.object.object_size as int));
                    assert((bytes@ + chunk@) + tail =~= bytes@ + (chunk@ + tail));
                }
            }
            bytes.append(&mut chunk);
            link = data.next;
            hops = hops - 1;
        }
        proof {
            if ok {
                assert(bytes@ + Seq::<u8>::empty() =~= bytes@);
            }
        }
        Ok(bytes)
    }

    /// The first entry that keeps block `victim` in use: one that stands in
    /// the block, or whose file has an object there. `None` where the block
    /// is not in use.
    pub(crate) fn tenant(&mut self, victim: usize) -> (res: Result<
        Option<(ObjectInfo, Ghost<(int, int)>)>,
        StorageError,
    >)
        requires
            old(self).wf(),
        ensures
            final(self).unchanged(old(self)),
            old(self).consistent() ==> match res {
                Ok(Some((info, at))) => in_use(old(self).model(), victim as int) && is_entry(
                    old(self).model().layout,
                    at@.0,
                    at@.1,
                ) && old(self).model().layout[at@.0].objects[at@.1] == info && first_tenant(
                    old(self).model(),
                    victim as int,
                    at@.0,
                    at@.1,
                ),
                Ok(None) => !in_use(old(self).model(), victim as int),
                Err(e) => e == StorageError::Io && !old(self).medium().reliable(),
            },
    {
        proof {
            self.medium.lemma_inv();
        }
        let g = self.medium.geometry();
        let ghost ok = self.consistent();
        let ghost m = self.medium()@;
        let ghost a = self.model();
        proof {
            if ok {
                lemma_refines_facts(m, g, a);
            }
        }
        let mut block: usize = 0;
        while block < g.block_count
            invariant
                block <= g.block_count,
                old(self).wf(),
                self.unchanged(old(self)),
                self.medium().spec_geometry() == g,
                g.valid(),
                ok == old(self).consistent(),
                m == old(self).medium()@,
                a == old(self).model(),
                ok ==> laid_out(m, g, a.layout),
                ok ==> forall|b2: int, i2: int|
                    scanned_before(b2, i2, block as int, 0) && #[trigger] is_entry(a.layout, b2, i2)
                        ==> b2 != victim && !reaches(
                        a.records[a.layout[b2].objects[i2].location],
                        victim as int,
                    ),
            decreases g.block_count - block,
        {
            if self.blocks[block].is_metadata() {
                let mut iter = ObjectIterator::new(block);
                let ghost mut i: int = 0;
                let ghost objects = a.layout[block as int].objects;
                proof {
                    if ok {
                        lemma_layout_bounds(m, g, block as int, a.layout[block as int], 0);
                    }
                }
                loop
                    invariant_except_break
                        block < g.block_count,
                        old(self).wf(),
                        self.unchanged(old(self)),
                                self.medium().spec_geometry() == g,
                        g.valid(),
                        ok == old(self).consistent(),
                        m == old(self).medium()@,
                        a == old(self).model(),
                        objects == a.layout[block as int].objects,
                        iter.location().block == block,
                        ok ==> laid_out(m, g, a.layout),
                        ok ==> a.layout[block as int].kind == BlockType::Metadata,
                        ok ==> 0 <= i <= objects.len() && iter.location() == place_of(
                            g,
                            block as int,
                            objects,
                            i,
                        ),
                        ok ==> forall|b2: int, i2: int|
                            scanned_before(b2, i2, block as int, i) && #[trigger] is_entry(
                                a.layout,
                                b2,
                                i2,
                            ) ==> b2 != victim && !reaches(
                                a.records[a.layout[b2].objects[i2].location],
                                victim as int,
                            ),
                    ensures
                        self.unchanged(old(self)),
                        ok ==> forall|b2: int, i2: int|
                            scanned_before(b2, i2, block as int + 1, 0) && #[trigger] is_entry(
                                a.layout,
                                b2,
                                i2,
                            ) ==> b2 != victim && !reaches(
                                a.records[a.layout[b2].objects[i2].location],
                                victim as int,
                            ),
                    decreases g.block_size + 1 - iter.location().offset,
                {
                    let ghost before = iter.location();
                    proof {
                        if ok {
                            assert(block_laid_out(m, g, block as int, a.layout[block as int]));
                            if i < objects.len() {
                                assert(step_at(m, g, place_of(g, block as int, objects, i))
                                    == Step::Object(objects[i]));
                                lemma_held_header(m, g, a.layout, block as int, i);
                            }
                        }
                    }
                    let info = match iter.next(&mut self.medium) {
                        Ok(Some(info)) => info,
                        Ok(None) => {
                            proof {
                                if ok {
                                    assert forall|b2: int, i2: int|
                                        scanned_before(b2, i2, block as int + 1, 0)
                                            && #[trigger] is_entry(
                                            a.layout,
                                            b2,
                                            i2,
                                        ) implies b2 != victim && !reaches(
                                        a.records[a.layout[b2].objects[i2].location],
                                        victim as int,
                                    ) by {
                                        assert(scanned_before(b2, i2, block as int, i));
                                    }
                                }
                            }
                            break ;
                        },
                        Err(e) => {
                            return Err(e);
                        },
                    };
                    proof {
                        lemma_step_object(m, g, before, info);
                        self.lemma_unchanged(old(self));
                        if ok {
                            if i >= objects.len() {
                                assert(step_at(
                                    m,
                                    g,
                                    place_of(g, block as int, objects, objects.len() as int),
                                ) == Step::End);
                            }
                            assert(info == objects[i]);
                            lemma_held_header(m, g, a.layout, block as int, i);
                            lemma_layout_bounds(
                                m,
                                g,
                                block as int,
                                a.layout[block as int],
                                i + 1,
                            );
                        }
                    }
                    if iter.current_offset() > g.block_size || iter.current_offset()
                        <= info.location.offset {
                        return Err(StorageError::Corrupted);
                    }
                    if info.header.state.is_valid() {
                        proof {
                            if ok {
                                assert(is_entry(a.layout, block as int, i));
                            }
                        }
                        if block == victim {
                            return Ok(Some((info, Ghost((block as int, i)))));
                        }
                        match self.entry_reaches(
                            info,
                            victim,
                            Ghost(block as int),
                            Ghost(i),
                            Ghost(ok),
                        ) {
                            Ok(true) => {
                                return Ok(Some((info, Ghost((block as int, i)))));
                            },
                            Ok(false) => {},
                            Err(e) => {
                                return Err(e);
                            },
                        }
                    }
                    proof {
                        if ok {
                            assert forall|b2: int, i2: int|
                                scanned_before(b2, i2, block as int, i + 1) && #[trigger] is_entry(
                                    a.layout,
                                    b2,
                                    i2,
                                ) implies b2 != victim && !reaches(
                                a.records[a.layout[b2].objects[i2].location],
                                victim as int,
                            ) by {
                                if !(b2 == block as int && i2 == i) {
                                    assert(scanned_before(b2, i2, block as int, i));
                                }
                            }
                            i = i + 1;
                        }
                    }
                }
            } else {
                proof {
                    if ok {
                        assert forall|b2: int, i2: int|
                            scanned_before(b2, i2, block as int + 1, 0) && #[trigger] is_entry(
                                a.layout,
                                b2,
                                i2,
                            ) implies b2 != victim && !reaches(
                            a.records[a.layout[b2].objects[i2].location],
                            victim as int,
                        ) by {
                            if b2 != block as int {
                                assert(scanned_before(b2, i2, block as int, 0));
                            }
                        }
                    }
                }
            }
            block += 1;
        }
        proof {
            if ok {
                assert forall|b2: int, i2: int| #[trigger] is_entry(a.layout, b2, i2) implies !(b2
                    == victim || reaches(
                    a.records[a.layout[b2].objects[i2].location],
                    victim as int,
                )) by {
                    assert(scanned_before(b2, i2, g.block_count as int, 0));
                }
            }
        }
        Ok(None)
    }
    /// Opens the file stored under `path` for reading: the reader stands
    /// at the first byte of the file.
    pub fn read(&mut self, path: &str) -> (res: Result<Reader, StorageError>)
        requires
            old(self).wf(),
        ensures
            res matches Err(e) ==> e == StorageError::NotFound || e.is_fault(),
            final(self).unchanged(old(self)),
            old(self).consistent() ==> match res {
                Ok(reader) => old(self).files().dom().contains(path.spec_bytes())
                    && reader.remaining(old(self).medium()@, old(self).medium().spec_geometry())
                    == Some(old(self).files()[path.spec_bytes()]) && reader.wf(
                    old(self).medium().spec_geometry(),
                ),
                Err(e) => (e == StorageError::NotFound && !old(self).files().dom().contains(
                    path.spec_bytes(),
                )) || (e == StorageError::Io && !old(self).medium().reliable()),
            },
    {
        self.open(path.as_bytes())
    }
}

impl Reader {
    /// The reader stands inside the object it reads from.
    pub closed spec fn wf(&self, g: Geometry) -> bool {
        self.current matches Some(reader) ==> reader.wf(g)
    }

    /// What is left of the object that the reader stands in.
    pub closed spec fn rest_of_object(&self, m: Contents, g: Geometry) -> Seq<u8> {
        match self.current {
            Some(reader) => payload_at(
                m,
                g,
                reader.location(),
                reader.header().object_size as int,
            ).subrange(reader.cursor(), reader.header().object_size as int),
            None => Seq::empty(),
        }
    }

    /// The bytes of the file that were not read yet. `None` where the
    /// objects that hold them cannot be read.
    pub closed spec fn remaining(&self, m: Contents, g: Geometry) -> Option<Seq<u8>> {
        match chain_data(m, g, self.next, self.hops as nat) {
            Some(rest) => Some(self.rest_of_object(m, g) + rest),
            None => None,
        }
    }

    /// Reads the next bytes of the file into the front of `buf` and returns
    /// their number, which is zero only at the end of the file or for an
    /// empty `buf`. A read does not go beyond the object it starts in, so
    /// it may return fewer bytes than `buf` has room for.
    pub fn read<M: StorageMedium>(&mut self, storage: &mut Storage<M>, buf: &mut [u8]) -> (res:
        Result<usize, StorageError>)
        requires
            old(storage).wf(),
            old(self).wf(old(storage).medium().spec_geometry()),
        ensures
            res matches Err(e) ==> e.is_fault(),
            final(storage).unchanged(old(storage)),
            final(self).wf(old(storage).medium().spec_geometry()),
            final(buf)@.len() == old(buf)@.len(),
            old(self).remaining(old(storage).medium()@, old(storage).medium().spec_geometry())
                matches Some(left) ==> match res {
                Ok(n) => {
                    &&& n <= left.len()
                    &&& n <= old(buf)@.len()
                    &&& n == 0 ==> left.len() == 0 || old(buf)@.len() == 0
                    &&& final(buf)@.subrange(0, n as int) == left.subrange(0, n as int)
                    &&& final(buf)@.subrange(n as int, old(buf)@.len() as int) == old(buf)@.subrange(n as int, old(buf)@.len() as int)
                    &&& final(self).remaining(
                        old(storage).medium()@,
                        old(storage).medium().spec_geometry(),
                    ) == Some(left.skip(n as int))
                },
                Err(e) => e == StorageError::Io && !old(storage).medium().reliable(),
            },
    {
        proof {
            storage.medium.lemma_inv();
            crate::medium::lemma_align(storage.medium.spec_geometry(), 0);
        }
        let ghost g = storage.medium().spec_geometry();
        let ghost m = storage.medium()@;
        let ghost start = old(self).remaining(m, g);
        loop
            invariant
                old(storage).wf(),
                storage.unchanged(old(storage)),
                g == old(storage).medium().spec_geometry(),
                m == old(storage).medium()@,
                g.valid(),
                crate::medium::shaped(m, g),
                self.wf(g),
                buf@ == old(buf)@,
                start == old(self).remaining(m, g),
                self.remaining(m, g) == start,
            decreases self.hops, (if self.current is Some { 1int } else { 0int }),
        {
            let left = match &self.current {
                Some(reader) => reader.remaining(),
                None => 0,
            };
            proof {
                if self.current is Some {
                    let r0 = self.current.unwrap();
                    crate::ll::objects::lemma_payload_len(
                        m,
                        g,
                        r0.location(),
                        r0.header().object_size as int,
                    );
                }
            }
            if left > 0 {
                let ghost before = self.rest_of_object(m, g);
                let ghost rest = chain_data(m, g, self.next, self.hops as nat);
                let ghost r0 = self.current.unwrap();
                match &mut self.current {
                    Some(reader) => {
                        let res = reader.read(&mut storage.medium, buf);
                        proof {
                            if start is Some {
                                let all = start.unwrap();
                                assert(all == before + rest.unwrap());
                                match res {
                                    Ok(n) => {
                                        let r1 = self.current.unwrap();
                                        assert(r1.location() == r0.location());
                                        assert(r1.header() == r0.header());
                                        assert(r1.cursor() == r0.cursor() + n);
                                        assert(buf@.subrange(0, n as int) =~= all.subrange(
                                            0,
                                            n as int,
                                        ));
                                        assert(self.rest_of_object(m, g) =~= before.skip(
                                            n as int,
                                        ));
                                        assert(self.rest_of_object(m, g) + rest.unwrap()
                                            =~= all.skip(n as int));
                                    },
                                    Err(_) => {},
                                }
                            }
                        }
                        return res;
                    },
                    None => {},
                }
            }
            proof {
                assert(self.rest_of_object(m, g) =~= Seq::<u8>::empty());
            }
            self.current = None;
            let location = match self.next {
                Some(location) => location,
                None => {
                    proof {
                        if start is Some {
                            assert(start.unwrap() =~= Seq::<u8>::empty());
                            assert(start.unwrap().skip(0) =~= start.unwrap());
                            assert(buf@.subrange(0, 0) =~= start.unwrap().subrange(0, 0));
                        }
                    }
                    return Ok(0);
                },
            };
            if self.hops == 0 {
                return Err(StorageError::Corrupted);
            }
            let ghost hops = self.hops;
            match DataObjectHeader::read(location, &mut storage.medium) {
                Ok((data, reader)) => {
                    self.current = Some(reader);
                    self.next = data.next;
                    self.hops = self.hops - 1;
                    proof {
                        if start is Some {
                            let tail = chain_data(m, g, data.next, (hops - 1) as nat);
                            assert(self.rest_of_object(m, g) =~= chunk_at(
                                m,
                                g,
                                location,
                                data.object.object_size as int,
                            ));
                            assert(Seq::<u8>::empty() + (chunk_at(
                                m,
                                g,
                                location,
                                data.object.object_size as int,
                            ) + tail.unwrap()) =~= chunk_at(
                                m,
                                g,
                                location,
                                data.object.object_size as int,
                            ) + tail.unwrap());
                        }
                    }
                },
                Err(e) => {
                    return Err(e);
                },
            }
        }
    }
}

impl Directory {
    /// The block that the walk stands in.
    pub closed spec fn block(&self) -> int {
        self.block as int
    }

    /// The offset in the block at which the walk stands.
    pub closed spec fn offset(&self) -> int {
        self.offset as int
    }

    /// The number of blocks that the walk has not left yet.
    pub closed spec fn blocks_left(&self, g: Geometry) -> nat {
        if self.block < g.block_count {
            (g.block_count - self.block) as nat
        } else {
            0
        }
    }

    /// The number of bytes between the walk and the end of its block.
    pub closed spec fn bytes_left(&self, g: Geometry) -> nat {
        if self.offset <= g.block_size {
            (g.block_size - self.offset) as nat
        } else {
            0
        }
    }

    /// The walk has moved on from where `before` stands.
    pub open spec fn ahead_of(&self, before: &Self, g: Geometry) -> bool {
        self.blocks_left(g) < before.blocks_left(g) || (self.blocks_left(g) == before.blocks_left(g)
            && self.bytes_left(g) < before.bytes_left(g))
    }

    /// The names of the files that the walk has still to come to.
    pub open spec fn left(&self, m: Contents, g: Geometry) -> Set<Seq<u8>> {
        names_from(m, g, self.block(), self.offset())
    }

    /// The walk stands at the start of an object of the storage, or behind
    /// the last object of a block.
    pub closed spec fn wf<M: StorageMedium>(&self, storage: &Storage<M>) -> bool {
        let layout = storage.model().layout;
        self.block < layout.len() ==> 0 <= self.index@ <= layout[self.block as int].objects.len()
            && self.offset == start_of(
            storage.medium().spec_geometry(),
            layout[self.block as int].objects,
            self.index@,
        )
    }

    /// A walk stays well formed while files are deleted: deleting marks
    /// objects and moves none.
    pub proof fn lemma_walk_kept<M: StorageMedium>(&self, before: &Storage<M>, after: &Storage<M>)
        requires
            before.consistent(),
            after.only_deleted_since(before),
            after.medium().spec_geometry() == before.medium().spec_geometry(),
            self.wf(before),
        ensures
            self.wf(after),
    {
        lemma_refines_facts(before.medium()@, before.medium().spec_geometry(), before.model());
        if self.block < before.model().layout.len() {
            lemma_extents_start(
                before.model(),
                after.model(),
                before.medium().spec_geometry(),
                self.block as int,
                self.index@,
            );
        }
    }

    /// Moves to the next file and returns its name; `None` when the walk
    /// has come to every file. Each file is come to once, in the order in
    /// which a scan meets the files.
    pub fn next<M: StorageMedium>(&mut self, storage: &mut Storage<M>) -> (res: Result<
        Option<Vec<u8>>,
        StorageError,
    >)
        requires
            old(storage).wf(),
            old(storage).consistent() ==> old(self).wf(old(storage)),
        ensures
            final(storage).unchanged(old(storage)),
            res matches Ok(Some(_)) ==> final(self).ahead_of(
                old(self),
                old(storage).medium().spec_geometry(),
            ),
            old(storage).consistent() ==> final(self).wf(final(storage)) && match res {
                Ok(Some(name)) => old(self).left(
                    old(storage).medium()@,
                    old(storage).medium().spec_geometry(),
                ).contains(name@) && final(self).left(
                    old(storage).medium()@,
                    old(storage).medium().spec_geometry(),
                ) == old(self).left(
                    old(storage).medium()@,
                    old(storage).medium().spec_geometry(),
                ).remove(name@),
                Ok(None) => old(self).left(
                    old(storage).medium()@,
                    old(storage).medium().spec_geometry(),
                ) == Set::<Seq<u8>>::empty() && final(self).left(
                    old(storage).medium()@,
                    old(storage).medium().spec_geometry(),
                ) == Set::<Seq<u8>>::empty(),
                Err(e) => e == StorageError::Io && !old(storage).medium().reliable() && final(self).left(
                    old(storage).medium()@,
                    old(storage).medium().spec_geometry(),
                ) == old(self).left(old(storage).medium()@, old(storage).medium().spec_geometry()),
            },
    {
        proof {
            storage.medium.lemma_inv();
            crate::medium::lemma_align(storage.medium.spec_geometry(), 0);
        }
        let g = storage.medium.geometry();
        let ghost m = storage.medium()@;
        let ghost a = storage.model();
        let ghost ok = storage.consistent();
        let ghost start = self.left(m, g);
        proof {
            if ok {
                lemma_refines_facts(m, g, a);
            }
        }
        loop
            invariant
                old(storage).wf(),
                storage.unchanged(old(storage)),
                g == old(storage).medium().spec_geometry(),
                m == old(storage).medium()@,
                a == old(storage).model(),
                ok == old(storage).consistent(),
                start == old(self).left(m, g),
                g.valid(),
                ok ==> laid_out(m, g, a.layout) && a.layout.len() == g.block_count,
                ok ==> self.wf(storage) && self.left(m, g) == start,
                self.block > old(self).block || (self.block == old(self).block && self.offset
                    >= old(self).offset),
            decreases g.block_count - self.block, g.block_size + 1 - self.offset,
        {
            if self.block >= g.block_count {
                proof {
                    if ok {
                        lemma_names_end(m, g, a.layout, self.block as int, self.offset as int);
                    }
                }
                return Ok(None);
            }
            let block = self.block;
            let ghost i = self.index@;
            let ghost objects = a.layout[block as int].objects;
            proof {
                if ok {
                    lemma_layout_bounds(m, g, block as int, a.layout[block as int], i);
                    assert(block_laid_out(m, g, block as int, a.layout[block as int]));
                    if i < objects.len() {
                        assert(step_at(m, g, place_of(g, block as int, objects, i))
                            == Step::Object(objects[i]));
                    }
                }
            }
            let mut found: Option<ObjectInfo> = None;
            if storage.blocks[block].is_metadata() && self.offset <= g.block_size {
                let mut iter = ObjectIterator::resume(ObjectLocation::new(block, self.offset));
                match iter.next(&mut storage.medium) {
                    Ok(next) => {
                        found = next;
                    },
                    Err(e) => {
                        return Err(e);
                    },
                }
                proof {
                    storage.lemma_unchanged(old(storage));
                    if ok {
                        if found is Some {
                            lemma_step_object(
                                m,
                                g,
                                place_of(g, block as int, objects, i),
                                found.unwrap(),
                            );
                            if i >= objects.len() {
                                assert(step_at(
                                    m,
                                    g,
                                    place_of(g, block as int, objects, objects.len() as int),
                                ) == Step::End);
                            }
                            assert(found.unwrap() == objects[i]);
                            lemma_held_header(m, g, a.layout, block as int, i);
                            lemma_layout_bounds(
                                m,
                                g,
                                block as int,
                                a.layout[block as int],
                                i + 1,
                            );
                        }
                    }
                }
                if found.is_some() && (iter.current_offset() > g.block_size
                    || iter.current_offset() <= self.offset) {
                    return Err(StorageError::Corrupted);
                }
                match found {
                    Some(info) => {
                        let name = match storage.first_name(
                            info,
                            Ghost(block as int),
                            Ghost(i),
                            Ghost(ok),
                        ) {
                            Ok(name) => name,
                            Err(e) => {
                                return Err(e);
                            },
                        };
                        proof {
                            storage.lemma_unchanged(old(storage));
                            if ok {
                                if name is Some {
                                    lemma_names_take(
                                        m,
                                        g,
                                        a.layout,
                                        block as int,
                                        i,
                                        name.unwrap()@,
                                    );
                                } else {
                                    lemma_names_skip(m, g, a.layout, block as int, i);
                                }
                            }
                        }
                        self.offset = iter.current_offset();
                        self.index = Ghost(i + 1);
                        if name.is_some() {
                            return Ok(name);
                        }
                    },
                    None => {},
                }
            }
            if found.is_none() {
                proof {
                    if ok {
                        if a.layout[block as int].kind == BlockType::Metadata {
                            assert(i == objects.len()) by {
                                if i < objects.len() {
                                    assert(step_at(m, g, place_of(g, block as int, objects, i))
                                        == Step::Object(objects[i]));
                                }
                            }
                        }
                        lemma_names_next_block(m, g, a.layout, block as int, i);
                    }
                }
                self.block = block + 1;
                self.offset = HEADER_BYTES;
                self.index = Ghost(0);
            }
        }
    }
}

impl<M: StorageMedium> Storage<M> {
    /// Starts a walk through the directory: every file is still to come.
    pub fn list(&self) -> (walk: Directory)
        requires
            self.wf(),
        ensures
            self.consistent() ==> walk.wf(self) && walk.left(
                self.medium()@,
                self.medium().spec_geometry(),
            ) == self.files().dom(),
    {
        proof {
            if self.consistent() {
                lemma_refines_facts(self.medium()@, self.medium().spec_geometry(), self.model());
                lemma_names_all(self.medium()@, self.medium().spec_geometry(), self.model().layout);
            }
        }
        Directory { block: 0, offset: HEADER_BYTES, index: Ghost(0) }
    }
}

impl<P: StorageMedium> Storage<Counters<P>> {
    /// The number of erases that reached the medium.
    pub fn erase_count(&self) -> (n: usize)
        ensures
            n == self.medium().erase_count,
    {
        self.medium.erase_count
    }

    /// The number of reads that reached the medium.
    pub fn read_count(&self) -> (n: usize)
        ensures
            n == self.medium().read_count,
    {
        self.medium.read_count
    }

    /// The number of writes that reached the medium.
    pub fn write_count(&self) -> (n: usize)
        ensures
            n == self.medium().write_count,
    {
        self.medium.write_count
    }
}

} // verus!
