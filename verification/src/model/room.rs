//! Where the next object goes: what the engine remembers of the blocks
//! decides whether an object finds room, and in which block.

use vstd::prelude::*;

use crate::ll::blocks::{end_of, BlockInfo, BlockLayout, BlockType, HEADER_BYTES};
use crate::ll::objects::spec_metadata_bytes;
use crate::medium::Geometry;

verus! {

/// What the engine remembers of blocks with the given layout: the kind of
/// each, and where its last object ends.
pub open spec fn cache_of(g: Geometry, layout: Seq<BlockLayout>) -> Seq<BlockInfo> {
    Seq::new(
        layout.len(),
        |b: int| BlockInfo { kind: layout[b].kind, used: end_of(g, layout[b].objects) as usize },
    )
}

/// What the engine remembers of the blocks of a freshly formatted medium.
pub open spec fn fresh_cache(g: Geometry, metadata_blocks: int) -> Seq<BlockInfo> {
    Seq::new(
        g.block_count as nat,
        |b: int|
            BlockInfo {
                kind: if b < metadata_blocks {
                    BlockType::Metadata
                } else {
                    BlockType::Undefined
                },
                used: HEADER_BYTES,
            },
    )
}

/// Block `b` is of the given kind and has room for an object with
/// `payload` bytes of payload.
pub open spec fn takes(
    blocks: Seq<BlockInfo>,
    g: Geometry,
    avoid: Option<usize>,
    kind: BlockType,
    payload: int,
    b: int,
) -> bool {
    &&& 0 <= b < blocks.len()
    &&& avoid != Some(b as usize)
    &&& blocks[b].kind == kind
    &&& g.spec_object_header_bytes() + payload <= g.block_size - blocks[b].used
}

/// Block `b` is undefined: it can be given a kind.
pub open spec fn spare(blocks: Seq<BlockInfo>, avoid: Option<usize>, b: int) -> bool {
    &&& 0 <= b < blocks.len()
    &&& avoid != Some(b as usize)
    &&& blocks[b].kind == BlockType::Undefined
}

/// An object with `payload` bytes of payload goes to block `b`: the first
/// block of the kind that has room for it or, where none has, the first
/// undefined block. The block to avoid is never taken.
pub open spec fn chosen(
    blocks: Seq<BlockInfo>,
    g: Geometry,
    avoid: Option<usize>,
    kind: BlockType,
    payload: int,
    b: int,
) -> bool {
    &&& payload <= g.block_size - HEADER_BYTES - g.spec_object_header_bytes()
    &&& (takes(blocks, g, avoid, kind, payload, b) && forall|x: int|
        0 <= x < b ==> !takes(blocks, g, avoid, kind, payload, x)) || (spare(blocks, avoid, b) && (
    forall|x: int| 0 <= x < b ==> !spare(blocks, avoid, x)) && forall|x: int|
        0 <= x < blocks.len() ==> !takes(blocks, g, avoid, kind, payload, x))
}

/// Some block takes an object with `payload` bytes of payload.
pub open spec fn has_room(
    blocks: Seq<BlockInfo>,
    g: Geometry,
    avoid: Option<usize>,
    kind: BlockType,
    payload: int,
) -> bool {
    exists|b: int| chosen(blocks, g, avoid, kind, payload, b)
}

/// The offset at which the next object of block `b` starts.
pub open spec fn next_start(blocks: Seq<BlockInfo>, kind: BlockType, b: int) -> int {
    if blocks[b].kind == kind {
        blocks[b].used as int
    } else {
        HEADER_BYTES as int
    }
}

/// What the engine remembers of the blocks once an object with `payload`
/// bytes of payload was written to block `b`.
pub open spec fn filled(
    blocks: Seq<BlockInfo>,
    g: Geometry,
    kind: BlockType,
    payload: int,
    b: int,
) -> Seq<BlockInfo> {
    blocks.update(
        b,
        BlockInfo {
            kind,
            used: g.spec_align(
                next_start(blocks, kind, b) + g.spec_object_header_bytes() + payload,
            ) as usize,
        },
    )
}

/// What the engine remembers of the blocks once an object with `payload`
/// bytes of payload was written; `None` where no block takes it.
pub open spec fn cache_after(
    blocks: Seq<BlockInfo>,
    g: Geometry,
    avoid: Option<usize>,
    kind: BlockType,
    payload: int,
) -> Option<Seq<BlockInfo>> {
    if has_room(blocks, g, avoid, kind, payload) {
        Some(
            filled(
                blocks,
                g,
                kind,
                payload,
                choose|b: int| chosen(blocks, g, avoid, kind, payload, b),
            ),
        )
    } else {
        None
    }
}

/// The most bytes of a file that one data object holds: what a block has
/// room for behind its header, the header of the object and the link to
/// the next object.
pub open spec fn spec_max_chunk(g: Geometry) -> int {
    g.block_size - HEADER_BYTES - g.spec_object_header_bytes() - g.spec_object_location_bytes()
}

/// The number of bytes that the data object holds which ends at byte
/// `end` of a file: every data object but the first is full.
pub open spec fn chunk_size(g: Geometry, end: int) -> int {
    if end % spec_max_chunk(g) == 0 {
        spec_max_chunk(g)
    } else {
        end % spec_max_chunk(g)
    }
}

/// What the engine remembers of the blocks once the first `end` bytes of
/// a file were written, from the last data object to the first; `None`
/// where one of the objects finds no room.
pub open spec fn cache_after_chunks(
    blocks: Seq<BlockInfo>,
    g: Geometry,
    avoid: Option<usize>,
    end: int,
) -> Option<Seq<BlockInfo>>
    decreases end,
    when spec_max_chunk(g) > 0
    via cache_after_chunks_decreases
{
    if end <= 0 {
        Some(blocks)
    } else {
        match cache_after(
            blocks,
            g,
            avoid,
            BlockType::Data,
            g.spec_object_location_bytes() + chunk_size(g, end),
        ) {
            None => None,
            Some(next) => cache_after_chunks(next, g, avoid, end - chunk_size(g, end)),
        }
    }
}

#[via_fn]
proof fn cache_after_chunks_decreases(
    blocks: Seq<BlockInfo>,
    g: Geometry,
    avoid: Option<usize>,
    end: int,
) {
    if end > 0 {
        lemma_chunk_size(g, end);
    }
}

/// A data object holds at least one byte of the file, and no more than
/// are left of it.
pub proof fn lemma_chunk_size(g: Geometry, end: int)
    requires
        spec_max_chunk(g) > 0,
        end > 0,
    ensures
        0 < chunk_size(g, end) <= end,
        chunk_size(g, end) <= spec_max_chunk(g),
{
    let max = spec_max_chunk(g);
    assert(0 <= end % max < max && (end % max == 0 ==> max <= end)) by (nonlinear_arith)
        requires
            max > 0,
            end > 0,
    ;
    assert(end % max <= end) by (nonlinear_arith)
        requires
            max > 0,
            end > 0,
    ;
}

/// What the engine remembers of the blocks once the object that holds a
/// name of `name` bytes and the data objects for contents of `data` bytes
/// were written; `None` where one of them finds no room.
pub open spec fn cache_after_contents(
    blocks: Seq<BlockInfo>,
    g: Geometry,
    avoid: Option<usize>,
    name: int,
    data: int,
) -> Option<Seq<BlockInfo>> {
    match cache_after(blocks, g, avoid, BlockType::Data, name) {
        None => None,
        Some(named) => cache_after_chunks(named, g, avoid, data),
    }
}

/// What the engine remembers of the blocks once a file with a name of
/// `name` bytes and contents of `data` bytes was written: the object that
/// holds the name, the data objects from the last to the first, and the
/// metadata object. `None` where one of them finds no room.
pub open spec fn cache_after_store(
    blocks: Seq<BlockInfo>,
    g: Geometry,
    avoid: Option<usize>,
    name: int,
    data: int,
) -> Option<Seq<BlockInfo>> {
    match cache_after_contents(blocks, g, avoid, name, data) {
        None => None,
        Some(written) => cache_after(
            written,
            g,
            avoid,
            BlockType::Metadata,
            spec_metadata_bytes(g),
        ),
    }
}

/// An object goes to one block only.
pub proof fn lemma_chosen_unique(
    blocks: Seq<BlockInfo>,
    g: Geometry,
    avoid: Option<usize>,
    kind: BlockType,
    payload: int,
    b: int,
)
    requires
        chosen(blocks, g, avoid, kind, payload, b),
    ensures
        has_room(blocks, g, avoid, kind, payload),
        cache_after(blocks, g, avoid, kind, payload) == Some(filled(blocks, g, kind, payload, b)),
{
    let c = choose|c: int| chosen(blocks, g, avoid, kind, payload, c);
    if c < b {
        assert(!takes(blocks, g, avoid, kind, payload, c));
        assert(!spare(blocks, avoid, c));
    }
    if b < c {
        assert(!takes(blocks, g, avoid, kind, payload, b));
        assert(!spare(blocks, avoid, b));
    }
}

/// The first of the first `n` blocks that takes the object, or -1 where
/// none of them takes it.
pub proof fn lemma_first_taker(
    blocks: Seq<BlockInfo>,
    g: Geometry,
    avoid: Option<usize>,
    kind: BlockType,
    payload: int,
    n: int,
) -> (first: int)
    requires
        0 <= n <= blocks.len(),
    ensures
        -1 <= first < n,
        first >= 0 ==> takes(blocks, g, avoid, kind, payload, first),
        forall|x: int|
            0 <= x < (if first >= 0 {
                first
            } else {
                n
            }) ==> !takes(blocks, g, avoid, kind, payload, x),
    decreases n,
{
    if n == 0 {
        -1
    } else {
        let before = lemma_first_taker(blocks, g, avoid, kind, payload, n - 1);
        if before >= 0 {
            before
        } else if takes(blocks, g, avoid, kind, payload, n - 1) {
            n - 1
        } else {
            -1
        }
    }
}

/// The first of the first `n` blocks that is undefined, or -1 where none
/// of them is.
pub proof fn lemma_first_spare(blocks: Seq<BlockInfo>, avoid: Option<usize>, n: int) -> (first: int)
    requires
        0 <= n <= blocks.len(),
    ensures
        -1 <= first < n,
        first >= 0 ==> spare(blocks, avoid, first),
        forall|x: int|
            0 <= x < (if first >= 0 {
                first
            } else {
                n
            }) ==> !spare(blocks, avoid, x),
    decreases n,
{
    if n == 0 {
        -1
    } else {
        let before = lemma_first_spare(blocks, avoid, n - 1);
        if before >= 0 {
            before
        } else if spare(blocks, avoid, n - 1) {
            n - 1
        } else {
            -1
        }
    }
}

/// Room that was reclaimed is room: as long as a block is erased and
/// undefined, as a block is that was cleared, every object that a block can
/// hold finds room, whatever was stored and deleted before. (It goes to the
/// first block of its kind that takes it, or to the first undefined block.)
pub proof fn lemma_cleared_gives_room(
    blocks: Seq<BlockInfo>,
    g: Geometry,
    kind: BlockType,
    payload: int,
    cleared: int,
)
    requires
        0 <= cleared < blocks.len(),
        blocks[cleared].kind == BlockType::Undefined,
        payload <= g.block_size - HEADER_BYTES - g.spec_object_header_bytes(),
    ensures
        has_room(blocks, g, None, kind, payload),
        cache_after(blocks, g, None, kind, payload) is Some,
{
    let n = blocks.len() as int;
    let taker = lemma_first_taker(blocks, g, None, kind, payload, n);
    if taker >= 0 {
        assert(chosen(blocks, g, None, kind, payload, taker));
    } else {
        let free = lemma_first_spare(blocks, None, n);
        assert(spare(blocks, None, cleared));
        assert(chosen(blocks, g, None, kind, payload, free));
    }
}

/// The number of undefined blocks among the first `n`.
pub open spec fn spares(blocks: Seq<BlockInfo>, n: int) -> int
    decreases n,
{
    if n <= 0 {
        0
    } else {
        spares(blocks, n - 1) + if blocks[n - 1].kind == BlockType::Undefined {
            1int
        } else {
            0int
        }
    }
}

/// The number of data objects that hold the first `end` bytes of a file.
pub open spec fn chunk_count(g: Geometry, end: int) -> int
    decreases end,
    when spec_max_chunk(g) > 0
    via chunk_count_decreases
{
    if end <= 0 {
        0
    } else {
        1 + chunk_count(g, end - chunk_size(g, end))
    }
}

#[via_fn]
proof fn chunk_count_decreases(g: Geometry, end: int) {
    if end > 0 {
        lemma_chunk_size(g, end);
    }
}

/// Where an undefined block is counted, there is one.
pub proof fn lemma_spare_exists(blocks: Seq<BlockInfo>, n: int) -> (b: int)
    requires
        0 <= n <= blocks.len(),
        spares(blocks, n) >= 1,
    ensures
        0 <= b < n,
        blocks[b].kind == BlockType::Undefined,
    decreases n,
{
    if blocks[n - 1].kind == BlockType::Undefined {
        n - 1
    } else {
        lemma_spare_exists(blocks, n - 1)
    }
}

/// An object takes at most one undefined block.
pub proof fn lemma_spares_filled(
    blocks: Seq<BlockInfo>,
    g: Geometry,
    kind: BlockType,
    payload: int,
    b: int,
    n: int,
)
    requires
        0 <= b < blocks.len(),
        0 <= n <= blocks.len(),
    ensures
        spares(filled(blocks, g, kind, payload, b), n) >= spares(blocks, n) - 1,
        b >= n ==> spares(filled(blocks, g, kind, payload, b), n) == spares(blocks, n),
    decreases n,
{
    if n > 0 {
        lemma_spares_filled(blocks, g, kind, payload, b, n - 1);
        if b != n - 1 {
            assert(filled(blocks, g, kind, payload, b)[n - 1] == blocks[n - 1]);
        }
    }
}

/// Where a block is undefined, an object that a block can hold finds
/// room, and takes at most one undefined block.
pub proof fn lemma_room_one(blocks: Seq<BlockInfo>, g: Geometry, kind: BlockType, payload: int)
    requires
        spares(blocks, blocks.len() as int) >= 1,
        payload <= g.block_size - HEADER_BYTES - g.spec_object_header_bytes(),
    ensures
        cache_after(blocks, g, None, kind, payload) matches Some(next) && next.len() == blocks.len()
            && spares(next, next.len() as int) >= spares(blocks, blocks.len() as int) - 1,
{
    let free = lemma_spare_exists(blocks, blocks.len() as int);
    lemma_cleared_gives_room(blocks, g, kind, payload, free);
    let b = choose|b: int| chosen(blocks, g, None, kind, payload, b);
    lemma_spares_filled(blocks, g, kind, payload, b, blocks.len() as int);
}

/// The data objects of a file find room where as many blocks are undefined
/// as there are data objects.
pub proof fn lemma_room_chunks(blocks: Seq<BlockInfo>, g: Geometry, end: int)
    requires
        spec_max_chunk(g) > 0,
        spares(blocks, blocks.len() as int) >= chunk_count(g, end),
    ensures
        cache_after_chunks(blocks, g, None, end) matches Some(next) && next.len() == blocks.len()
            && spares(next, next.len() as int) >= spares(blocks, blocks.len() as int)
            - chunk_count(g, end),
    decreases end,
{
    if end > 0 {
        lemma_chunk_size(g, end);
        let size = chunk_size(g, end);
        assert(chunk_count(g, end) == 1 + chunk_count(g, end - size));
        assert(chunk_count(g, end - size) >= 0) by {
            lemma_chunk_count(g, end - size);
        }
        lemma_room_one(blocks, g, BlockType::Data, g.spec_object_location_bytes() + size);
        let next = cache_after(
            blocks,
            g,
            None,
            BlockType::Data,
            g.spec_object_location_bytes() + size,
        ).unwrap();
        lemma_room_chunks(next, g, end - size);
    }
}

/// A file has no fewer data objects than none, and each holds no more
/// than a data object can.
pub proof fn lemma_chunk_count(g: Geometry, end: int)
    requires
        spec_max_chunk(g) > 0,
    ensures
        0 <= chunk_count(g, end),
        end <= chunk_count(g, end) * spec_max_chunk(g),
    decreases end,
{
    if end > 0 {
        lemma_chunk_size(g, end);
        let size = chunk_size(g, end);
        lemma_chunk_count(g, end - size);
        let rest = chunk_count(g, end - size);
        let max = spec_max_chunk(g);
        assert((1 + rest) * max == max + rest * max) by (nonlinear_arith);
    } else {
        assert(0 * spec_max_chunk(g) == 0);
    }
}

/// Success is owed where blocks are free: a file finds room wherever as
/// many blocks are undefined as it has objects, which are the object that
/// holds its name, its data objects and its metadata object. Blocks that
/// were cleared count as those that were never used.
pub proof fn lemma_room_for_spares(blocks: Seq<BlockInfo>, g: Geometry, name: int, data: int)
    requires
        g.valid(),
        name <= g.block_size - HEADER_BYTES - g.spec_object_header_bytes(),
        spares(blocks, blocks.len() as int) >= chunk_count(g, data) + 2,
    ensures
        cache_after_store(blocks, g, None, name, data) is Some,
{
    crate::medium::lemma_align(g, 0);
    lemma_chunk_count(g, data);
    lemma_room_one(blocks, g, BlockType::Data, name);
    let named = cache_after(blocks, g, None, BlockType::Data, name).unwrap();
    lemma_room_chunks(named, g, data);
    let written = cache_after_chunks(named, g, None, data).unwrap();
    lemma_room_one(written, g, BlockType::Metadata, spec_metadata_bytes(g));
}

/// On a freshly formatted medium every block but the metadata blocks is
/// undefined.
pub proof fn lemma_spares_fresh(g: Geometry, metadata_blocks: int, n: int)
    requires
        0 <= metadata_blocks <= g.block_count,
        0 <= n <= g.block_count,
    ensures
        spares(fresh_cache(g, metadata_blocks), n) == (if n <= metadata_blocks {
            0
        } else {
            n - metadata_blocks
        }),
    decreases n,
{
    if n > 0 {
        lemma_spares_fresh(g, metadata_blocks, n - 1);
    }
}

/// No more blocks are undefined than there are, and a block that is
/// undefined is counted.
pub proof fn lemma_spares_bound(blocks: Seq<BlockInfo>, n: int, b: int)
    requires
        0 <= n <= blocks.len(),
    ensures
        0 <= spares(blocks, n) <= n,
        0 <= b < n && blocks[b].kind == BlockType::Undefined ==> spares(blocks, n) >= 1,
    decreases n,
{
    if n > 0 {
        lemma_spares_bound(blocks, n - 1, b);
    }
}

} // verus!
