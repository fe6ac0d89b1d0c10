//! Erasing a block: when it is safe, and what it does to a consistent
//! medium.

use vstd::prelude::*;

use crate::ll::blocks::{
    block_header, block_laid_out, end_of, laid_out, lemma_layout_bounds, place_of, start_of,
    BlockInfo, BlockLayout, BlockType, HEADER_BYTES,
};
use crate::ll::objects::{lemma_step_object, step_at, ObjectInfo, ObjectLocation, ObjectState, Step};
use crate::medium::{blank_from, lemma_align, shaped, wiped, Contents, Geometry};
use crate::model::files;
use crate::model::state::{
    chunk_held, chunk_ok, closed, entries_ok, held, holds, is_entry, lemma_held_header,
    lemma_refines_facts, placed, record_ok, refines, FileRecord, Model,
};
use crate::model::steps::{lemma_block_same, lemma_files_same, same_entries};

verus! {

/// The file `r` has an object in block `v`: its name object, or, as long
/// as it is live, one of its data objects.
pub open spec fn reaches(r: FileRecord, v: int) -> bool {
    r.name_at.block == v || (r.live && exists|j: int|
        0 <= j < r.chunks.len() && (#[trigger] r.chunks[j]).at.block == v)
}

/// Block `v` is in use: it holds an entry, or an object of a file that has
/// an entry.
pub open spec fn in_use(a: Model, v: int) -> bool {
    exists|b: int, i: int| #[trigger]
        is_entry(a.layout, b, i) && (b == v || reaches(
            a.records[a.layout[b].objects[i].location],
            v,
        ))
}

/// The structure `a` with block `v` erased: the block is undefined again
/// and holds nothing, and no claims are laid to what it held.
pub open spec fn erased(a: Model, v: int) -> Model {
    Model {
        layout: a.layout.update(v, BlockLayout { kind: BlockType::Undefined, objects: Seq::empty() }),
        records: a.records,
        owner: a.owner.restrict(Set::new(|x: ObjectLocation| x.block != v)),
    }
}

/// After a block that is not in use was erased, every entry still stands
/// for the file it stood for.
pub proof fn lemma_erase_entry(m: Contents, g: Geometry, a: Model, v: int, b: int, i: int)
    requires
        refines(m, g, a),
        0 <= v < g.block_count,
        !in_use(a, v),
        is_entry(a.layout, b, i),
    ensures
        b != v,
        record_ok(
            wiped(m, v),
            g,
            erased(a, v),
            a.layout[b].objects[i],
            a.records[a.layout[b].objects[i].location],
        ),
{
    reveal(refines);
    let m2 = wiped(m, v);
    let a2 = erased(a, v);
    let info = a.layout[b].objects[i];
    let r = a.records[info.location];
    assert(record_ok(m, g, a, info, r));
    assert(!reaches(r, v) && b != v);
    crate::model::state::lemma_held_header(m, g, a.layout, b, i);
    assert(m2[b] == m[b]);
    assert(m2[r.name_at.block as int] == m[r.name_at.block as int]);
    assert(a2.layout[r.name_at.block as int] == a.layout[r.name_at.block as int]);
    if r.live {
        assert forall|j: int| 0 <= j < r.chunks.len() implies #[trigger] chunk_ok(
            m2,
            g,
            a2,
            info.location,
            r,
            j,
        ) by {
            assert(chunk_ok(m, g, a, info.location, r, j));
            let c = r.chunks[j];
            assert(c.at.block != v);
            assert(m2[c.at.block as int] == m[c.at.block as int]);
            assert(a2.layout[c.at.block as int] == a.layout[c.at.block as int]);
        }
    }
}

/// Erasing a block that is not in use keeps the medium consistent, with
/// the entries and the files that it had.
pub proof fn lemma_refines_erase(m: Contents, g: Geometry, a: Model, v: int)
    requires
        refines(m, g, a),
        0 <= v < g.block_count,
        !in_use(a, v),
    ensures
        refines(wiped(m, v), g, erased(a, v)),
        same_entries(a, erased(a, v)),
        files(wiped(m, v), g) == files(m, g),
        end_of(g, erased(a, v).layout[v].objects) == HEADER_BYTES,
        !in_use(erased(a, v), v),
{
    reveal(refines);
    lemma_align(g, 0);
    let m2 = wiped(m, v);
    let a2 = erased(a, v);
    assert(shaped(m2, g)) by {
        assert forall|k: int| 0 <= k < m2.len() implies (#[trigger] m2[k]).len()
            == g.block_size by {
            assert(m[k].len() == g.block_size);
        }
    }
    assert(block_header(m2, v) =~= BlockType::Undefined.encoding());
    BlockType::Undefined.lemma_parse_encoding();
    assert forall|b: int| 0 <= b < a2.layout.len() implies block_laid_out(
        m2,
        g,
        b,
        #[trigger] a2.layout[b],
    ) && blank_from(m2[b], end_of(g, a2.layout[b].objects)) by {
        if b != v {
            assert(m2[b] == m[b]);
            assert(a2.layout[b] == a.layout[b]);
            lemma_block_same(m, m2, g, b, a.layout[b]);
        }
    }
    assert(closed(g, a2.layout)) by {
        assert forall|b: int, i: int|
            0 <= b < a2.layout.len() && 0 <= i < a2.layout[b].objects.len() && ((
            #[trigger] a2.layout[b].objects[i]).header.state == ObjectState::Finalized
                || a2.layout[b].objects[i].header.state
                == ObjectState::Deleted) implies a2.layout[b].objects[i].header.fits(
            g,
            a2.layout[b].objects[i].location.offset as int,
        ) by {
            assert(a2.layout[b].objects[i] == a.layout[b].objects[i]);
        }
    }
    assert forall|b: int, i: int| #[trigger] is_entry(a.layout, b, i) implies is_entry(
        a2.layout,
        b,
        i,
    ) && a2.layout[b].objects[i] == a.layout[b].objects[i] by {
        assert(b != v);
    }
    assert forall|b: int, i: int| #[trigger] is_entry(a2.layout, b, i) implies is_entry(
        a.layout,
        b,
        i,
    ) && a2.layout[b].objects[i] == a.layout[b].objects[i] && a2.records[a2.layout[b].objects[i].location]
        == a.records[a.layout[b].objects[i].location] by {
        assert(b != v);
        assert(a2.layout[b] == a.layout[b]);
    }
    assert(entries_ok(m2, g, a2)) by {
        assert forall|b: int, i: int|
            0 <= b < a2.layout.len() && 0 <= i < a2.layout[b].objects.len() && a2.layout[b].kind
                == BlockType::Metadata && (#[trigger] a2.layout[b].objects[i]).header.state
                == ObjectState::Finalized implies a2.records.dom().contains(
            a2.layout[b].objects[i].location,
        ) && record_ok(
            m2,
            g,
            a2,
            a2.layout[b].objects[i],
            a2.records[a2.layout[b].objects[i].location],
        ) by {
            assert(is_entry(a2.layout, b, i));
            assert(is_entry(a.layout, b, i));
            lemma_erase_entry(m, g, a, v, b, i);
        }
    }
    assert forall|x: ObjectLocation| #[trigger] a2.owner.dom().contains(x) implies placed(
        a2.layout,
        BlockType::Data,
        x,
    ) by {
        assert(a.owner.dom().contains(x));
        assert(placed(a.layout, BlockType::Data, x));
        let index = choose|index: int| holds(a.layout, BlockType::Data, x, index);
        assert(a2.layout[x.block as int] == a.layout[x.block as int]);
        assert(holds(a2.layout, BlockType::Data, x, index));
    }
    assert(refines(m2, g, a2));
    lemma_files_same(m, m2, g, a, a2);
}

/// What the engine reads of a live entry: its data objects are in place,
/// and its name object can be opened.
pub proof fn lemma_live_entry(m: Contents, g: Geometry, a: Model, b: int, i: int)
    requires
        refines(m, g, a),
        is_entry(a.layout, b, i),
    ensures
        crate::ll::objects::metadata_at(m, g, a.layout[b].objects[i].location) matches Ok(meta)
            && meta.filename_location == a.records[a.layout[b].objects[i].location].name_at && (
        a.records[a.layout[b].objects[i].location].live ==> meta.first_data
            == a.records[a.layout[b].objects[i].location].first_link()),
        a.records[a.layout[b].objects[i].location].live ==> crate::ll::objects::ObjectReader::spec_new(
            m,
            g,
            a.records[a.layout[b].objects[i].location].name_at,
        ) is Ok,
        !a.records[a.layout[b].objects[i].location].live ==> crate::ll::objects::ObjectReader::spec_new(
            m,
            g,
            a.records[a.layout[b].objects[i].location].name_at,
        ) == Err::<crate::ll::objects::ObjectHeader, crate::StorageError>(
            crate::StorageError::InvalidState,
        ),
        a.records[a.layout[b].objects[i].location].live ==> a.records[a.layout[b].objects[i].location].chunks.len()
            <= crate::model::spec_max_hops(g) && forall|j: int|
            0 <= j < a.records[a.layout[b].objects[i].location].chunks.len()
                ==> #[trigger] chunk_held(
                m,
                g,
                a.layout,
                a.records[a.layout[b].objects[i].location],
                j,
            ),
{
    let info = a.layout[b].objects[i];
    let r = a.records[info.location];
    lemma_refines_facts(m, g, a);
    crate::model::state::lemma_entry_metadata(m, g, a, b, i);
    assert(record_ok(m, g, a, info, r)) by {
        reveal(refines);
    }
    crate::model::state::lemma_held_reader(
        m,
        g,
        a.layout,
        BlockType::Data,
        r.name_at,
        r.name_index,
    );
    assert(held(a.layout, r.name_at, r.name_index).fits(g, r.name_at.offset as int));
    if r.live {
        assert forall|j: int| 0 <= j < r.chunks.len() implies #[trigger] chunk_held(
            m,
            g,
            a.layout,
            r,
            j,
        ) by {
            assert(chunk_ok(m, g, a, info.location, r, j));
        }
    }
}

/// A live entry is found under its name, and its name object holds the
/// name.
pub proof fn lemma_live_name(m: Contents, g: Geometry, a: Model, b: int, i: int)
    requires
        refines(m, g, a),
        is_entry(a.layout, b, i),
        a.records[a.layout[b].objects[i].location].live,
    ensures
        crate::model::files(m, g).dom().contains(a.records[a.layout[b].objects[i].location].name),
        (crate::ll::objects::ObjectReader::spec_new(
            m,
            g,
            a.records[a.layout[b].objects[i].location].name_at,
        ) matches Ok(header) && crate::ll::objects::payload_at(
            m,
            g,
            a.records[a.layout[b].objects[i].location].name_at,
            header.object_size as int,
        ) == a.records[a.layout[b].objects[i].location].name),
{
    let r = a.records[a.layout[b].objects[i].location];
    lemma_refines_facts(m, g, a);
    crate::model::state::lemma_hit_iff(m, g, a, r.name, b, i);
    crate::model::state::lemma_entry_metadata(m, g, a, b, i);
    assert(crate::model::is_hit(m, g, a.layout, r.name, b, i));
    reveal(crate::model::matches_at);
    let first = crate::model::lemma_first_hit_exists(m, g, a.layout, r.name, b, i);
    crate::model::lemma_first_hit_unique(m, g, a.layout, r.name, first.0, first.1);
    crate::model::lemma_layout_unique(m, g, a.layout);
}

/// The number of bytes that the finalized objects among the first `upto`
/// objects take, each from its start to the end of its payload.
pub open spec fn live_bytes(g: Geometry, objects: Seq<ObjectInfo>, upto: int) -> int
    decreases upto,
{
    if upto <= 0 {
        0
    } else {
        live_bytes(g, objects, upto - 1) + if objects[upto - 1].header.state
            == ObjectState::Finalized {
            objects[upto - 1].spec_total_size(g)
        } else {
            0
        }
    }
}

/// The number of bytes of block `b` that finalized objects take.
pub open spec fn live_in(g: Geometry, layout: Seq<BlockLayout>, b: int) -> int {
    live_bytes(g, layout[b].objects, layout[b].objects.len() as int)
}

/// The engine has put something into block `b`: clearing it may gain
/// room.
pub open spec fn candidate(blocks: Seq<BlockInfo>, b: int) -> bool {
    &&& 0 <= b < blocks.len()
    &&& blocks[b].kind != BlockType::Undefined
    &&& blocks[b].used > HEADER_BYTES
}

/// Block `v` is the one to clear next: of the blocks that something was
/// put into, none has fewer bytes in finalized objects, and of those with
/// as few it is the first.
pub open spec fn is_victim(blocks: Seq<BlockInfo>, g: Geometry, layout: Seq<BlockLayout>, v: int) -> bool {
    &&& candidate(blocks, v)
    &&& forall|b: int| #[trigger]
        candidate(blocks, b) ==> live_in(g, layout, v) <= live_in(g, layout, b)
    &&& forall|b: int| #[trigger]
        candidate(blocks, b) && b < v ==> live_in(g, layout, v) < live_in(g, layout, b)
}

/// The finalized objects of a block take no more bytes than lie between
/// the header of the block and the end of the last of them.
pub proof fn lemma_live_bound(m: Contents, g: Geometry, layout: Seq<BlockLayout>, b: int, i: int)
    requires
        g.valid(),
        laid_out(m, g, layout),
        closed(g, layout),
        0 <= b < layout.len(),
        0 <= i <= layout[b].objects.len(),
    ensures
        0 <= live_bytes(g, layout[b].objects, i) <= start_of(g, layout[b].objects, i)
            - HEADER_BYTES,
    decreases i,
{
    if i > 0 {
        lemma_live_bound(m, g, layout, b, i - 1);
        lemma_held_header(m, g, layout, b, i - 1);
        lemma_layout_bounds(m, g, b, layout[b], i - 1);
        assert(step_at(m, g, place_of(g, b, layout[b].objects, i - 1)) == Step::Object(
            layout[b].objects[i - 1],
        ));
        lemma_step_object(
            m,
            g,
            place_of(g, b, layout[b].objects, i - 1),
            layout[b].objects[i - 1],
        );
        lemma_align(g, 0);
    }
}

/// What a writer began and did not complete keeps no block in use: a
/// block in which every object is still allocated holds no entry and no
/// object of a file, and can be erased.
pub proof fn lemma_unfinished_reclaimable(m: Contents, g: Geometry, a: Model, v: int)
    requires
        refines(m, g, a),
        0 <= v < g.block_count,
        forall|i: int|
            0 <= i < a.layout[v].objects.len() ==> (#[trigger] a.layout[v].objects[i]).header.state
                == ObjectState::Allocated,
    ensures
        !in_use(a, v),
        refines(wiped(m, v), g, erased(a, v)),
        files(wiped(m, v), g) == files(m, g),
{
    lemma_refines_facts(m, g, a);
    assert forall|b: int, i: int| #[trigger] is_entry(a.layout, b, i) implies !(b == v || reaches(
        a.records[a.layout[b].objects[i].location],
        v,
    )) by {
        let r = a.records[a.layout[b].objects[i].location];
        assert(record_ok(m, g, a, a.layout[b].objects[i], r)) by {
            reveal(refines);
        }
        if r.name_at.block == v {
            assert(a.layout[v].objects[r.name_index].header.state == ObjectState::Allocated);
        }
        if r.live {
            assert forall|j: int| 0 <= j < r.chunks.len() implies (#[trigger] r.chunks[j]).at.block
                != v by {
                assert(chunk_ok(m, g, a, a.layout[b].objects[i].location, r, j));
                if r.chunks[j].at.block == v {
                    assert(a.layout[v].objects[r.chunks[j].index].header.state
                        == ObjectState::Allocated);
                }
            }
        }
    }
    lemma_refines_erase(m, g, a, v);
}

} // verus!
