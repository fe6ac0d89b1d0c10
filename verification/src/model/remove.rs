//! Deleting objects: what each step of it does to a consistent medium.

use vstd::prelude::*;

use crate::ll::blocks::{
    block_laid_out, end_of, laid_out, lemma_layout_bounds, BlockLayout, BlockType,
};
use crate::ll::objects::{header_fits, payload_at, ObjectLocation, ObjectState};
use crate::ll::writer::state_set;
use crate::medium::{blank_from, lemma_align, same_outside, shaped, Contents, Geometry};
use crate::model::{
    contents_at, files, is_first_hit, is_hit, layout_of, lemma_first_hit_exists,
    lemma_first_hit_unique, lemma_layout_order, lookup_in, scanned_before, spec_max_hops,
};
use crate::model::state::{
    apart, chunk_held, chunk_ok, closed, entries_ok, free_blank, held, holds, is_entry,
    lemma_entry_contents, lemma_entry_metadata, lemma_held_header, lemma_hit_iff,
    lemma_refines_facts, placed, record_ok, refines, FileRecord, Model,
};
use crate::model::steps::{
    in_state, is_closed, kept, lemma_block_same, lemma_files_same, lemma_layout_state,
    lemma_object_kept, lemma_other_blocks, lemma_record_frame, same_entries, spared,
};

verus! {

/// The layout with object number `k` of block `b` deleted.
pub open spec fn without(layout: Seq<BlockLayout>, b: int, k: int) -> Seq<BlockLayout> {
    layout.update(
        b,
        BlockLayout {
            kind: layout[b].kind,
            objects: layout[b].objects.update(
                k,
                in_state(layout[b].objects[k], ObjectState::Deleted),
            ),
        },
    )
}

/// Deleting a finalized object changes its state in the layout and
/// nothing else on the medium.
pub proof fn lemma_delete_layout(m: Contents, g: Geometry, a: Model, b: int, k: int)
    requires
        refines(m, g, a),
        0 <= b < g.block_count,
        0 <= k < a.layout[b].objects.len(),
        a.layout[b].objects[k].header.state == ObjectState::Finalized,
    ensures
        shaped(state_set(m, g, a.layout[b].objects[k].location, ObjectState::Deleted), g),
        laid_out(
            state_set(m, g, a.layout[b].objects[k].location, ObjectState::Deleted),
            g,
            without(a.layout, b, k),
        ),
        free_blank(
            state_set(m, g, a.layout[b].objects[k].location, ObjectState::Deleted),
            g,
            without(a.layout, b, k),
        ),
        closed(g, without(a.layout, b, k)),
        same_outside(
            m,
            state_set(m, g, a.layout[b].objects[k].location, ObjectState::Deleted),
            b,
            a.layout[b].objects[k].location.offset as int,
            a.layout[b].objects[k].location.offset + g.spec_object_status_bytes(),
        ),
        spared(
            g,
            a.layout,
            b,
            a.layout[b].objects[k].location.offset as int,
            a.layout[b].objects[k].location.offset + g.spec_object_status_bytes(),
            b,
            k,
        ),
        kept(a.layout, without(a.layout, b, k), b, k),
        payload_at(
            state_set(m, g, a.layout[b].objects[k].location, ObjectState::Deleted),
            g,
            a.layout[b].objects[k].location,
            a.layout[b].objects[k].header.object_size as int,
        ) == payload_at(
            m,
            g,
            a.layout[b].objects[k].location,
            a.layout[b].objects[k].header.object_size as int,
        ),
{
    reveal(refines);
    lemma_align(g, 0);
    let touched = a.layout[b].objects[k];
    let m2 = state_set(m, g, touched.location, ObjectState::Deleted);
    let l2 = without(a.layout, b, k);
    let lo = touched.location.offset as int;
    let hi = lo + g.spec_object_status_bytes();
    lemma_layout_state(m, g, b, a.layout[b], k, ObjectState::Deleted);
    lemma_held_header(m, g, a.layout, b, k);
    assert forall|b2: int| 0 <= b2 < l2.len() implies block_laid_out(m2, g, b2, #[trigger] l2[b2])
        && blank_from(m2[b2], end_of(g, l2[b2].objects)) by {
        if b2 != b {
            lemma_other_blocks(m, m2, b, lo, hi, b2);
            assert(l2[b2] == a.layout[b2]);
            lemma_block_same(m, m2, g, b2, a.layout[b2]);
        } else {
            assert(blank_from(m[b], end_of(g, a.layout[b].objects)));
            assert forall|i: int| end_of(g, l2[b].objects) <= i < m2[b].len() implies #[trigger] m2[b][i]
                == 0xFFu8 by {
                assert(m[b][i] == 0xFFu8);
            }
        }
    }
    assert(closed(g, l2)) by {
        assert forall|b2: int, i: int|
            0 <= b2 < l2.len() && 0 <= i < l2[b2].objects.len() && is_closed(
                #[trigger] l2[b2].objects[i],
            ) implies l2[b2].objects[i].header.fits(g, l2[b2].objects[i].location.offset as int) by {
            if b2 == b && i == k {
                assert(is_closed(a.layout[b].objects[k]));
            } else {
                assert(l2[b2].objects[i] == a.layout[b2].objects[i]);
            }
        }
    }
    assert(spared(g, a.layout, b, lo, hi, b, k)) by {
        assert forall|b2: int, i: int|
            0 <= b2 < a.layout.len() && 0 <= i < a.layout[b2].objects.len() && !(b2 == b && i
                == k) && is_closed(#[trigger] a.layout[b2].objects[i]) implies b2 != b
            || a.layout[b2].objects[i].location.offset + a.layout[b2].objects[i].spec_total_size(
            g,
        ) <= lo || hi <= a.layout[b2].objects[i].location.offset by {
            if b2 == b {
                lemma_held_header(m, g, a.layout, b, i);
                if i < k {
                    lemma_layout_order(m, g, b, a.layout[b], i, k);
                    lemma_layout_bounds(m, g, b, a.layout[b], k);
                } else {
                    lemma_layout_order(m, g, b, a.layout[b], k, i);
                    lemma_layout_bounds(m, g, b, a.layout[b], i);
                    crate::model::steps::lemma_header_in_extent(touched, g);
                }
            }
        }
    }
    assert(kept(a.layout, l2, b, k));
    assert(m2[b].len() == m[b].len());
    assert(payload_at(m2, g, touched.location, touched.header.object_size as int) =~= payload_at(
        m,
        g,
        touched.location,
        touched.header.object_size as int,
    ));
}

/// Objects of one block that start at the same place are the same object.
pub proof fn lemma_same_place(m: Contents, g: Geometry, layout: Seq<BlockLayout>, b: int, i: int, j: int)
    requires
        g.valid(),
        laid_out(m, g, layout),
        0 <= b < layout.len(),
        0 <= i < layout[b].objects.len(),
        0 <= j < layout[b].objects.len(),
        layout[b].objects[i].location == layout[b].objects[j].location,
    ensures
        i == j,
{
    if i < j {
        lemma_layout_order(m, g, b, layout[b], i, j);
        lemma_layout_bounds(m, g, b, layout[b], j);
    }
    if j < i {
        lemma_layout_order(m, g, b, layout[b], j, i);
        lemma_layout_bounds(m, g, b, layout[b], i);
    }
}

/// The structure `a` with the name object of the file of entry `(eb, ei)`
/// deleted: the file is no longer live.
pub open spec fn name_deleted(a: Model, eb: int, ei: int) -> Model {
    let at = a.layout[eb].objects[ei].location;
    let r = a.records[at];
    Model {
        layout: without(a.layout, r.name_at.block as int, r.name_index),
        records: a.records.insert(
            at,
            FileRecord {
                name_at: r.name_at,
                name_index: r.name_index,
                name: r.name,
                live: false,
                chunks: r.chunks,
            },
        ),
        owner: a.owner,
    }
}

/// After the name object of a live file was deleted, every other entry
/// still stands for the file it stood for.
pub proof fn lemma_delete_name_other(
    m: Contents,
    g: Geometry,
    a: Model,
    eb: int,
    ei: int,
    b: int,
    i: int,
)
    requires
        refines(m, g, a),
        is_entry(a.layout, eb, ei),
        a.records[a.layout[eb].objects[ei].location].live,
        is_entry(a.layout, b, i),
        !(b == eb && i == ei),
    ensures
        a.layout[b].objects[i].location != a.layout[eb].objects[ei].location,
        record_ok(
            state_set(
                m,
                g,
                a.records[a.layout[eb].objects[ei].location].name_at,
                ObjectState::Deleted,
            ),
            g,
            name_deleted(a, eb, ei),
            a.layout[b].objects[i],
            a.records[a.layout[b].objects[i].location],
        ),
{
    reveal(refines);
    let e = a.layout[eb].objects[ei];
    let r = a.records[e.location];
    let tb = r.name_at.block as int;
    let tk = r.name_index;
    let a2 = name_deleted(a, eb, ei);
    let m2 = state_set(m, g, r.name_at, ObjectState::Deleted);
    let lo = r.name_at.offset as int;
    let hi = lo + g.spec_object_status_bytes();
    let info = a.layout[b].objects[i];
    let old = a.records[info.location];
    assert(record_ok(m, g, a, e, r));
    assert(record_ok(m, g, a, info, old));
    lemma_delete_layout(m, g, a, tb, tk);
    lemma_held_header(m, g, a.layout, b, i);
    lemma_held_header(m, g, a.layout, eb, ei);
    if b == eb {
        if info.location == e.location {
            lemma_same_place(m, g, a.layout, b, i, ei);
        }
    }
    assert(!(old.name_at.block == tb && old.name_index == tk)) by {
        if old.name_at.block == tb && old.name_index == tk {
            assert(old.name_at == r.name_at);
        }
    }
    if old.live {
        assert forall|j: int| 0 <= j < old.chunks.len() implies !((
        #[trigger] old.chunks[j]).at.block == tb && old.chunks[j].index == tk) by {
            assert(chunk_ok(m, g, a, info.location, old, j));
            if old.chunks[j].at.block == tb && old.chunks[j].index == tk {
                assert(old.chunks[j].at == r.name_at);
            }
        }
    }
    lemma_record_frame(m, m2, g, a, a2, tb, lo, hi, tb, tk, b, i, old);
}

/// After the name object of a live file was deleted, the entry of the
/// file stands for the file that is no longer live.
pub proof fn lemma_delete_name_self(m: Contents, g: Geometry, a: Model, eb: int, ei: int)
    requires
        refines(m, g, a),
        is_entry(a.layout, eb, ei),
        a.records[a.layout[eb].objects[ei].location].live,
    ensures
        record_ok(
            state_set(
                m,
                g,
                a.records[a.layout[eb].objects[ei].location].name_at,
                ObjectState::Deleted,
            ),
            g,
            name_deleted(a, eb, ei),
            a.layout[eb].objects[ei],
            name_deleted(a, eb, ei).records[a.layout[eb].objects[ei].location],
        ),
{
    reveal(refines);
    let e = a.layout[eb].objects[ei];
    let r = a.records[e.location];
    let tb = r.name_at.block as int;
    let tk = r.name_index;
    let a2 = name_deleted(a, eb, ei);
    let m2 = state_set(m, g, r.name_at, ObjectState::Deleted);
    let lo = r.name_at.offset as int;
    let hi = lo + g.spec_object_status_bytes();
    assert(record_ok(m, g, a, e, r));
    lemma_delete_layout(m, g, a, tb, tk);
    lemma_held_header(m, g, a.layout, eb, ei);
    assert(holds(a.layout, BlockType::Metadata, e.location, ei));
    lemma_object_kept(
        m,
        m2,
        g,
        a.layout,
        a2.layout,
        tb,
        lo,
        hi,
        tb,
        tk,
        BlockType::Metadata,
        e.location,
        ei,
    );
}

/// After the name object of a live file was deleted, the data objects of
/// the file are still in place.
pub proof fn lemma_delete_name_chunk(m: Contents, g: Geometry, a: Model, eb: int, ei: int, j: int)
    requires
        refines(m, g, a),
        is_entry(a.layout, eb, ei),
        a.records[a.layout[eb].objects[ei].location].live,
        0 <= j < a.records[a.layout[eb].objects[ei].location].chunks.len(),
    ensures
        chunk_held(
            state_set(
                m,
                g,
                a.records[a.layout[eb].objects[ei].location].name_at,
                ObjectState::Deleted,
            ),
            g,
            name_deleted(a, eb, ei).layout,
            a.records[a.layout[eb].objects[ei].location],
            j,
        ),
        a.owner.dom().contains(a.records[a.layout[eb].objects[ei].location].chunks[j].at),
        a.owner[a.records[a.layout[eb].objects[ei].location].chunks[j].at]
            == a.layout[eb].objects[ei].location,
{
    reveal(refines);
    let e = a.layout[eb].objects[ei];
    let r = a.records[e.location];
    let tb = r.name_at.block as int;
    let tk = r.name_index;
    let a2 = name_deleted(a, eb, ei);
    let m2 = state_set(m, g, r.name_at, ObjectState::Deleted);
    let lo = r.name_at.offset as int;
    let hi = lo + g.spec_object_status_bytes();
    assert(record_ok(m, g, a, e, r));
    lemma_delete_layout(m, g, a, tb, tk);
    assert(chunk_ok(m, g, a, e.location, r, j));
    let c = r.chunks[j];
    assert(c.at != r.name_at);
    lemma_object_kept(
        m,
        m2,
        g,
        a.layout,
        a2.layout,
        tb,
        lo,
        hi,
        tb,
        tk,
        BlockType::Data,
        c.at,
        c.index,
    );
}

/// Deleting the name object of a live file takes the file out of the
/// files that a scan finds, and changes nothing else: every other entry
/// stands for the file it stood for.
pub proof fn lemma_delete_name(m: Contents, g: Geometry, a: Model, eb: int, ei: int)
    requires
        refines(m, g, a),
        is_entry(a.layout, eb, ei),
        a.records[a.layout[eb].objects[ei].location].live,
    ensures
        refines(
            state_set(
                m,
                g,
                a.records[a.layout[eb].objects[ei].location].name_at,
                ObjectState::Deleted,
            ),
            g,
            name_deleted(a, eb, ei),
        ),
        forall|b: int, i: int|
            is_entry(name_deleted(a, eb, ei).layout, b, i) <==> #[trigger] is_entry(a.layout, b, i),
        forall|b: int, i: int| #[trigger]
            is_entry(a.layout, b, i) ==> name_deleted(a, eb, ei).layout[b].objects[i]
                == a.layout[b].objects[i] && (!(b == eb && i == ei) ==> name_deleted(
                a,
                eb,
                ei,
            ).records[a.layout[b].objects[i].location]
                == a.records[a.layout[b].objects[i].location]),
        !name_deleted(a, eb, ei).records[a.layout[eb].objects[ei].location].live,
        name_deleted(a, eb, ei).layout.len() == a.layout.len(),
        forall|x: int|
            0 <= x < a.layout.len() ==> (#[trigger] name_deleted(a, eb, ei).layout[x]).kind
                == a.layout[x].kind && end_of(g, name_deleted(a, eb, ei).layout[x].objects)
                == end_of(g, a.layout[x].objects),
{
    reveal(refines);
    let e = a.layout[eb].objects[ei];
    let r = a.records[e.location];
    let tb = r.name_at.block as int;
    let tk = r.name_index;
    let a2 = name_deleted(a, eb, ei);
    let m2 = state_set(m, g, r.name_at, ObjectState::Deleted);
    assert(record_ok(m, g, a, e, r));
    lemma_delete_layout(m, g, a, tb, tk);
    crate::model::steps::lemma_end_of_state(a.layout[tb].objects[tk], g, ObjectState::Deleted);
    assert forall|b: int, i: int|
        is_entry(a2.layout, b, i) <==> #[trigger] is_entry(a.layout, b, i) by {
        if 0 <= b < a.layout.len() && 0 <= i < a.layout[b].objects.len() && b != tb {
            assert(a2.layout[b] == a.layout[b]);
        }
    }
    assert forall|b: int, i: int| #[trigger] is_entry(a.layout, b, i) implies a2.layout[b].objects[i]
        == a.layout[b].objects[i] && (!(b == eb && i == ei) ==> a2.records[a.layout[b].objects[i].location]
        == a.records[a.layout[b].objects[i].location]) by {
        assert(a2.layout[b] == a.layout[b]);
        if !(b == eb && i == ei) {
            lemma_delete_name_other(m, g, a, eb, ei, b, i);
        }
    }
    assert(entries_ok(m2, g, a2)) by {
        assert forall|b: int, i: int|
            0 <= b < a2.layout.len() && 0 <= i < a2.layout[b].objects.len() && a2.layout[b].kind
                == BlockType::Metadata && (#[trigger] a2.layout[b].objects[i]).header.state
                == ObjectState::Finalized implies a2.records.dom().contains(
            a2.layout[b].objects[i].location,
        ) && record_ok(
            m2,
            g,
            a2,
            a2.layout[b].objects[i],
            a2.records[a2.layout[b].objects[i].location],
        ) by {
            assert(is_entry(a2.layout, b, i));
            assert(is_entry(a.layout, b, i));
            if b == eb && i == ei {
                lemma_delete_name_self(m, g, a, eb, ei);
            } else {
                lemma_delete_name_other(m, g, a, eb, ei, b, i);
            }
        }
    }
    assert forall|x: ObjectLocation| #[trigger] a2.owner.dom().contains(x) implies placed(
        a2.layout,
        BlockType::Data,
        x,
    ) by {
        assert(placed(a.layout, BlockType::Data, x));
        let index = choose|index: int| holds(a.layout, BlockType::Data, x, index);
        assert(a2.layout[x.block as int].objects[index].location == x);
        assert(holds(a2.layout, BlockType::Data, x, index));
    }
    assert forall|x: int| 0 <= x < a.layout.len() implies (#[trigger] a2.layout[x]).kind
        == a.layout[x].kind && end_of(g, a2.layout[x].objects) == end_of(g, a.layout[x].objects) by {
        if x != tb {
            assert(a2.layout[x] == a.layout[x]);
        } else {
            let n = a.layout[tb].objects.len() as int;
            if tk == n - 1 {
            } else {
                assert(a2.layout[tb].objects[n - 1] == a.layout[tb].objects[n - 1]);
            }
        }
    }
}

/// No entry points to object number `tk` of block `tb`: it is the name
/// object of no file, and data object of no live file.
pub open spec fn unreferenced(a: Model, tb: int, tk: int) -> bool {
    forall|b: int, i: int| #[trigger]
        is_entry(a.layout, b, i) ==> !(a.records[a.layout[b].objects[i].location].name_at.block
            == tb && a.records[a.layout[b].objects[i].location].name_index == tk) && (
        a.records[a.layout[b].objects[i].location].live ==> forall|j: int|
            0 <= j < a.records[a.layout[b].objects[i].location].chunks.len() ==> !((
            #[trigger] a.records[a.layout[b].objects[i].location].chunks[j]).at.block == tb
                && a.records[a.layout[b].objects[i].location].chunks[j].index == tk))
}

/// An object that belongs to a file that is no longer live, and is not
/// its name object, is pointed to by no entry.
pub proof fn lemma_orphan(m: Contents, g: Geometry, a: Model, eb: int, ei: int, tb: int, tk: int)
    requires
        refines(m, g, a),
        is_entry(a.layout, eb, ei),
        !a.records[a.layout[eb].objects[ei].location].live,
        0 <= tb < a.layout.len(),
        0 <= tk < a.layout[tb].objects.len(),
        a.owner.dom().contains(a.layout[tb].objects[tk].location),
        a.owner[a.layout[tb].objects[tk].location] == a.layout[eb].objects[ei].location,
        a.layout[tb].objects[tk].location != a.records[a.layout[eb].objects[ei].location].name_at,
    ensures
        unreferenced(a, tb, tk),
{
    reveal(refines);
    let x = a.layout[tb].objects[tk].location;
    let e = a.layout[eb].objects[ei];
    assert forall|b: int, i: int| #[trigger] is_entry(a.layout, b, i) implies !(
    a.records[a.layout[b].objects[i].location].name_at.block == tb
        && a.records[a.layout[b].objects[i].location].name_index == tk) && (
    a.records[a.layout[b].objects[i].location].live ==> forall|j: int|
        0 <= j < a.records[a.layout[b].objects[i].location].chunks.len() ==> !((
        #[trigger] a.records[a.layout[b].objects[i].location].chunks[j]).at.block == tb
            && a.records[a.layout[b].objects[i].location].chunks[j].index == tk)) by {
        let info = a.layout[b].objects[i];
        let r = a.records[info.location];
        assert(record_ok(m, g, a, info, r));
        if r.name_at.block == tb && r.name_index == tk {
            assert(r.name_at == x);
            assert(info.location == e.location);
        }
        if r.live {
            assert forall|j: int| 0 <= j < r.chunks.len() implies !((#[trigger] r.chunks[j]).at.block
                == tb && r.chunks[j].index == tk) by {
                assert(chunk_ok(m, g, a, info.location, r, j));
                if r.chunks[j].at.block == tb && r.chunks[j].index == tk {
                    assert(r.chunks[j].at == x);
                    assert(info.location == e.location);
                }
            }
        }
    }
}

/// The structure `a` with object number `tk` of block `tb` deleted.
pub open spec fn object_deleted(a: Model, tb: int, tk: int) -> Model {
    Model { layout: without(a.layout, tb, tk), records: a.records, owner: a.owner }
}

/// After an object that no entry points to was deleted, every entry still
/// stands for the file it stood for.
pub proof fn lemma_delete_object_entry(
    m: Contents,
    g: Geometry,
    a: Model,
    tb: int,
    tk: int,
    b: int,
    i: int,
)
    requires
        refines(m, g, a),
        0 <= tb < g.block_count,
        0 <= tk < a.layout[tb].objects.len(),
        a.layout[tb].objects[tk].header.state == ObjectState::Finalized,
        unreferenced(a, tb, tk),
        is_entry(a.layout, b, i),
        !(b == tb && i == tk),
    ensures
        record_ok(
            state_set(m, g, a.layout[tb].objects[tk].location, ObjectState::Deleted),
            g,
            object_deleted(a, tb, tk),
            a.layout[b].objects[i],
            a.records[a.layout[b].objects[i].location],
        ),
        object_deleted(a, tb, tk).layout[b].objects[i] == a.layout[b].objects[i],
        is_entry(object_deleted(a, tb, tk).layout, b, i),
{
    reveal(refines);
    let touched = a.layout[tb].objects[tk];
    let a2 = object_deleted(a, tb, tk);
    let m2 = state_set(m, g, touched.location, ObjectState::Deleted);
    let lo = touched.location.offset as int;
    let hi = lo + g.spec_object_status_bytes();
    let info = a.layout[b].objects[i];
    let r = a.records[info.location];
    assert(record_ok(m, g, a, info, r));
    lemma_delete_layout(m, g, a, tb, tk);
    lemma_record_frame(m, m2, g, a, a2, tb, lo, hi, tb, tk, b, i, r);
}

/// Deleting an object that no entry points to, and that is no entry,
/// keeps the medium consistent and its files as they are.
pub proof fn lemma_delete_object(m: Contents, g: Geometry, a: Model, tb: int, tk: int)
    requires
        refines(m, g, a),
        0 <= tb < g.block_count,
        0 <= tk < a.layout[tb].objects.len(),
        a.layout[tb].objects[tk].header.state == ObjectState::Finalized,
        a.layout[tb].kind == BlockType::Data,
        unreferenced(a, tb, tk),
    ensures
        refines(
            state_set(m, g, a.layout[tb].objects[tk].location, ObjectState::Deleted),
            g,
            object_deleted(a, tb, tk),
        ),
        same_entries(a, object_deleted(a, tb, tk)),
        files(state_set(m, g, a.layout[tb].objects[tk].location, ObjectState::Deleted), g)
            == files(m, g),
        forall|x: int|
            0 <= x < a.layout.len() ==> (#[trigger] object_deleted(a, tb, tk).layout[x]).kind
                == a.layout[x].kind && end_of(g, object_deleted(a, tb, tk).layout[x].objects)
                == end_of(g, a.layout[x].objects),
        forall|r: FileRecord, j: int|
            0 <= j < r.chunks.len() && #[trigger] chunk_held(m, g, a.layout, r, j) && !(
            r.chunks[j].at.block == tb && r.chunks[j].index == tk) ==> chunk_held(
                state_set(m, g, a.layout[tb].objects[tk].location, ObjectState::Deleted),
                g,
                object_deleted(a, tb, tk).layout,
                r,
                j,
            ),
{
    reveal(refines);
    let touched = a.layout[tb].objects[tk];
    let a2 = object_deleted(a, tb, tk);
    let m2 = state_set(m, g, touched.location, ObjectState::Deleted);
    let lo = touched.location.offset as int;
    let hi = lo + g.spec_object_status_bytes();
    lemma_delete_layout(m, g, a, tb, tk);
    crate::model::steps::lemma_end_of_state(touched, g, ObjectState::Deleted);
    assert forall|b: int, i: int| #[trigger] is_entry(a2.layout, b, i) implies is_entry(
        a.layout,
        b,
        i,
    ) && a2.layout[b].objects[i] == a.layout[b].objects[i] && a2.records[a2.layout[b].objects[i].location]
        == a.records[a.layout[b].objects[i].location] && record_ok(
        m2,
        g,
        a2,
        a2.layout[b].objects[i],
        a2.records[a2.layout[b].objects[i].location],
    ) && a2.records.dom().contains(a2.layout[b].objects[i].location) by {
        if b != tb {
            assert(a2.layout[b] == a.layout[b]);
        }
        assert(is_entry(a.layout, b, i));
        lemma_delete_object_entry(m, g, a, tb, tk, b, i);
    }
    assert forall|b: int, i: int| #[trigger] is_entry(a.layout, b, i) implies is_entry(
        a2.layout,
        b,
        i,
    ) by {
        lemma_delete_object_entry(m, g, a, tb, tk, b, i);
    }
    assert(entries_ok(m2, g, a2)) by {
        assert forall|b: int, i: int|
            0 <= b < a2.layout.len() && 0 <= i < a2.layout[b].objects.len() && a2.layout[b].kind
                == BlockType::Metadata && (#[trigger] a2.layout[b].objects[i]).header.state
                == ObjectState::Finalized implies a2.records.dom().contains(
            a2.layout[b].objects[i].location,
        ) && record_ok(
            m2,
            g,
            a2,
            a2.layout[b].objects[i],
            a2.records[a2.layout[b].objects[i].location],
        ) by {
            assert(is_entry(a2.layout, b, i));
        }
    }
    assert forall|x: ObjectLocation| #[trigger] a2.owner.dom().contains(x) implies placed(
        a2.layout,
        BlockType::Data,
        x,
    ) by {
        assert(placed(a.layout, BlockType::Data, x));
        let index = choose|index: int| holds(a.layout, BlockType::Data, x, index);
        assert(a2.layout[x.block as int].objects[index].location == x);
        assert(holds(a2.layout, BlockType::Data, x, index));
    }
    assert(refines(m2, g, a2));
    lemma_files_same(m, m2, g, a, a2);
    assert forall|x: int| 0 <= x < a.layout.len() implies (#[trigger] a2.layout[x]).kind
        == a.layout[x].kind && end_of(g, a2.layout[x].objects) == end_of(g, a.layout[x].objects) by {
        if x != tb {
            assert(a2.layout[x] == a.layout[x]);
        } else {
            let n = a.layout[tb].objects.len() as int;
            if tk != n - 1 {
                assert(a2.layout[tb].objects[n - 1] == a.layout[tb].objects[n - 1]);
            }
        }
    }
    assert forall|r: FileRecord, j: int|
        0 <= j < r.chunks.len() && #[trigger] chunk_held(m, g, a.layout, r, j) && !(
        r.chunks[j].at.block == tb && r.chunks[j].index == tk) implies chunk_held(
        m2,
        g,
        a2.layout,
        r,
        j,
    ) by {
        let c = r.chunks[j];
        assert(is_closed(a.layout[c.at.block as int].objects[c.index]));
        lemma_object_kept(
            m,
            m2,
            g,
            a.layout,
            a2.layout,
            tb,
            lo,
            hi,
            tb,
            tk,
            BlockType::Data,
            c.at,
            c.index,
        );
    }
}

/// After the metadata object of a file that is no longer live was
/// deleted, every other entry still stands for the file it stood for.
pub proof fn lemma_delete_entry_other(
    m: Contents,
    g: Geometry,
    a: Model,
    eb: int,
    ei: int,
    b: int,
    i: int,
)
    requires
        refines(m, g, a),
        is_entry(a.layout, eb, ei),
        is_entry(a.layout, b, i),
        !(b == eb && i == ei),
    ensures
        record_ok(
            state_set(m, g, a.layout[eb].objects[ei].location, ObjectState::Deleted),
            g,
            object_deleted(a, eb, ei),
            a.layout[b].objects[i],
            a.records[a.layout[b].objects[i].location],
        ),
        object_deleted(a, eb, ei).layout[b].objects[i] == a.layout[b].objects[i],
        is_entry(object_deleted(a, eb, ei).layout, b, i),
{
    reveal(refines);
    let touched = a.layout[eb].objects[ei];
    let a2 = object_deleted(a, eb, ei);
    let m2 = state_set(m, g, touched.location, ObjectState::Deleted);
    let lo = touched.location.offset as int;
    let hi = lo + g.spec_object_status_bytes();
    let info = a.layout[b].objects[i];
    let r = a.records[info.location];
    assert(record_ok(m, g, a, info, r));
    lemma_delete_layout(m, g, a, eb, ei);
    if r.live {
        assert forall|j: int| 0 <= j < r.chunks.len() implies !((#[trigger] r.chunks[j]).at.block
            == eb && r.chunks[j].index == ei) by {
            assert(chunk_ok(m, g, a, info.location, r, j));
        }
    }
    lemma_record_frame(m, m2, g, a, a2, eb, lo, hi, eb, ei, b, i, r);
}

/// Deleting the metadata object of an entry leaves the other entries as
/// they are.
pub proof fn lemma_delete_entry(m: Contents, g: Geometry, a: Model, eb: int, ei: int)
    requires
        refines(m, g, a),
        is_entry(a.layout, eb, ei),
    ensures
        refines(
            state_set(m, g, a.layout[eb].objects[ei].location, ObjectState::Deleted),
            g,
            object_deleted(a, eb, ei),
        ),
        forall|b: int, i: int|
            is_entry(object_deleted(a, eb, ei).layout, b, i) <==> #[trigger] is_entry(
                a.layout,
                b,
                i,
            ) && !(b == eb && i == ei),
        forall|b: int, i: int| #[trigger]
            is_entry(a.layout, b, i) && !(b == eb && i == ei) ==> object_deleted(
                a,
                eb,
                ei,
            ).layout[b].objects[i] == a.layout[b].objects[i],
        forall|x: int|
            0 <= x < a.layout.len() ==> (#[trigger] object_deleted(a, eb, ei).layout[x]).kind
                == a.layout[x].kind && end_of(g, object_deleted(a, eb, ei).layout[x].objects)
                == end_of(g, a.layout[x].objects),
{
    reveal(refines);
    let touched = a.layout[eb].objects[ei];
    let a2 = object_deleted(a, eb, ei);
    let m2 = state_set(m, g, touched.location, ObjectState::Deleted);
    lemma_delete_layout(m, g, a, eb, ei);
    crate::model::steps::lemma_end_of_state(touched, g, ObjectState::Deleted);
    assert forall|b: int, i: int|
        is_entry(a2.layout, b, i) <==> #[trigger] is_entry(a.layout, b, i) && !(b == eb && i
            == ei) by {
        if 0 <= b < a.layout.len() && 0 <= i < a.layout[b].objects.len() {
            if b != eb {
                assert(a2.layout[b] == a.layout[b]);
            } else if i != ei {
                assert(a2.layout[b].objects[i] == a.layout[b].objects[i]);
            }
        }
    }
    assert(entries_ok(m2, g, a2)) by {
        assert forall|b: int, i: int|
            0 <= b < a2.layout.len() && 0 <= i < a2.layout[b].objects.len() && a2.layout[b].kind
                == BlockType::Metadata && (#[trigger] a2.layout[b].objects[i]).header.state
                == ObjectState::Finalized implies a2.records.dom().contains(
            a2.layout[b].objects[i].location,
        ) && record_ok(
            m2,
            g,
            a2,
            a2.layout[b].objects[i],
            a2.records[a2.layout[b].objects[i].location],
        ) by {
            assert(is_entry(a2.layout, b, i));
            assert(is_entry(a.layout, b, i));
            lemma_delete_entry_other(m, g, a, eb, ei, b, i);
        }
    }
    assert forall|b: int, i: int| #[trigger] is_entry(a.layout, b, i) && !(b == eb && i
        == ei) implies a2.layout[b].objects[i] == a.layout[b].objects[i] by {
        lemma_delete_entry_other(m, g, a, eb, ei, b, i);
    }
    assert forall|x: ObjectLocation| #[trigger] a2.owner.dom().contains(x) implies placed(
        a2.layout,
        BlockType::Data,
        x,
    ) by {
        assert(placed(a.layout, BlockType::Data, x));
        let index = choose|index: int| holds(a.layout, BlockType::Data, x, index);
        assert(a2.layout[x.block as int].objects[index].location == x);
        assert(holds(a2.layout, BlockType::Data, x, index));
    }
    assert forall|x: int| 0 <= x < a.layout.len() implies (#[trigger] a2.layout[x]).kind
        == a.layout[x].kind && end_of(g, a2.layout[x].objects) == end_of(g, a.layout[x].objects) by {
        if x != eb {
            assert(a2.layout[x] == a.layout[x]);
        } else {
            let n = a.layout[eb].objects.len() as int;
            if ei != n - 1 {
                assert(a2.layout[eb].objects[n - 1] == a.layout[eb].objects[n - 1]);
            }
        }
    }
}

/// A scan of `m2` has the hits of a scan of `m`, but for object number
/// `ei` of block `eb` where `gone` says so; and what each hit leads to is
/// the same.
pub open spec fn hits_kept(
    m: Contents,
    m2: Contents,
    g: Geometry,
    l: Seq<BlockLayout>,
    l2: Seq<BlockLayout>,
    eb: int,
    ei: int,
    gone: bool,
) -> bool {
    &&& forall|p: Seq<u8>, b: int, i: int|
        is_hit(m2, g, l2, p, b, i) <==> #[trigger] is_hit(m, g, l, p, b, i) && !(gone && b == eb
            && i == ei)
    &&& forall|p: Seq<u8>, b: int, i: int| #[trigger]
        is_hit(m, g, l, p, b, i) && !(gone && b == eb && i == ei) ==> l2[b].objects[i].location
            == l[b].objects[i].location && contents_at(m2, g, l[b].objects[i].location)
            == contents_at(m, g, l[b].objects[i].location)
}

/// What is kept over two steps is kept over both.
pub proof fn lemma_hits_kept_twice(
    m: Contents,
    m2: Contents,
    m3: Contents,
    g: Geometry,
    l: Seq<BlockLayout>,
    l2: Seq<BlockLayout>,
    l3: Seq<BlockLayout>,
    eb: int,
    ei: int,
    gone: bool,
    gone2: bool,
)
    requires
        hits_kept(m, m2, g, l, l2, eb, ei, gone),
        hits_kept(m2, m3, g, l2, l3, eb, ei, gone2),
    ensures
        hits_kept(m, m3, g, l, l3, eb, ei, gone || gone2),
{
    assert forall|p: Seq<u8>, b: int, i: int|
        (is_hit(m3, g, l3, p, b, i) <==> #[trigger] is_hit(m, g, l, p, b, i) && !((gone || gone2)
            && b == eb && i == ei)) && (is_hit(m, g, l, p, b, i) && !((gone || gone2) && b == eb
            && i == ei) ==> l3[b].objects[i].location == l[b].objects[i].location && contents_at(
            m3,
            g,
            l[b].objects[i].location,
        ) == contents_at(m, g, l[b].objects[i].location)) by {
        let h1 = is_hit(m, g, l, p, b, i);
        let h2 = is_hit(m2, g, l2, p, b, i);
    }
}

/// Media that are consistent with the same entries have the same hits.
pub proof fn lemma_hits_of_entries(m: Contents, m2: Contents, g: Geometry, a: Model, a2: Model, eb: int, ei: int)
    requires
        refines(m, g, a),
        refines(m2, g, a2),
        same_entries(a, a2),
    ensures
        hits_kept(m, m2, g, a.layout, a2.layout, eb, ei, false),
{
    assert forall|p: Seq<u8>, b: int, i: int|
        (is_hit(m2, g, a2.layout, p, b, i) <==> #[trigger] is_hit(m, g, a.layout, p, b, i)) && (
        is_hit(m, g, a.layout, p, b, i) ==> a2.layout[b].objects[i].location
            == a.layout[b].objects[i].location && contents_at(
            m2,
            g,
            a.layout[b].objects[i].location,
        ) == contents_at(m, g, a.layout[b].objects[i].location)) by {
        lemma_hit_iff(m, g, a, p, b, i);
        lemma_hit_iff(m2, g, a2, p, b, i);
        if is_entry(a.layout, b, i) {
            assert(is_entry(a2.layout, b, i));
        }
        if is_entry(a2.layout, b, i) {
            assert(is_entry(a.layout, b, i));
        }
        if is_hit(m, g, a.layout, p, b, i) {
            lemma_entry_contents(m, g, a, b, i);
            lemma_entry_contents(m2, g, a2, b, i);
        }
    }
}

/// After the name object of a live file was deleted, the entry of the
/// file is no hit any more, and every other hit is what it was.
pub proof fn lemma_delete_name_hits(m: Contents, g: Geometry, a: Model, eb: int, ei: int)
    requires
        refines(m, g, a),
        is_entry(a.layout, eb, ei),
        a.records[a.layout[eb].objects[ei].location].live,
    ensures
        hits_kept(
            m,
            state_set(
                m,
                g,
                a.records[a.layout[eb].objects[ei].location].name_at,
                ObjectState::Deleted,
            ),
            g,
            a.layout,
            name_deleted(a, eb, ei).layout,
            eb,
            ei,
            true,
        ),
{
    let a2 = name_deleted(a, eb, ei);
    let m2 = state_set(
        m,
        g,
        a.records[a.layout[eb].objects[ei].location].name_at,
        ObjectState::Deleted,
    );
    lemma_delete_name(m, g, a, eb, ei);
    assert forall|p: Seq<u8>, b: int, i: int|
        (is_hit(m2, g, a2.layout, p, b, i) <==> #[trigger] is_hit(m, g, a.layout, p, b, i) && !(b
            == eb && i == ei)) && (is_hit(m, g, a.layout, p, b, i) && !(b == eb && i == ei)
            ==> a2.layout[b].objects[i].location == a.layout[b].objects[i].location
            && contents_at(m2, g, a.layout[b].objects[i].location) == contents_at(
            m,
            g,
            a.layout[b].objects[i].location,
        )) by {
        lemma_hit_iff(m, g, a, p, b, i);
        lemma_hit_iff(m2, g, a2, p, b, i);
        if is_entry(a.layout, b, i) {
            assert(is_entry(a2.layout, b, i));
        }
        if is_entry(a2.layout, b, i) {
            assert(is_entry(a.layout, b, i));
        }
        if is_hit(m, g, a.layout, p, b, i) && !(b == eb && i == ei) {
            lemma_entry_contents(m, g, a, b, i);
            lemma_entry_contents(m2, g, a2, b, i);
        }
    }
}

/// After the metadata object of a file that is no longer live was
/// deleted, every hit is what it was.
pub proof fn lemma_delete_entry_hits(m: Contents, g: Geometry, a: Model, eb: int, ei: int)
    requires
        refines(m, g, a),
        is_entry(a.layout, eb, ei),
        !a.records[a.layout[eb].objects[ei].location].live,
    ensures
        hits_kept(
            m,
            state_set(m, g, a.layout[eb].objects[ei].location, ObjectState::Deleted),
            g,
            a.layout,
            object_deleted(a, eb, ei).layout,
            eb,
            ei,
            false,
        ),
{
    let a2 = object_deleted(a, eb, ei);
    let m2 = state_set(m, g, a.layout[eb].objects[ei].location, ObjectState::Deleted);
    lemma_delete_entry(m, g, a, eb, ei);
    assert forall|p: Seq<u8>, b: int, i: int|
        (is_hit(m2, g, a2.layout, p, b, i) <==> #[trigger] is_hit(m, g, a.layout, p, b, i)) && (
        is_hit(m, g, a.layout, p, b, i) ==> a2.layout[b].objects[i].location
            == a.layout[b].objects[i].location && contents_at(
            m2,
            g,
            a.layout[b].objects[i].location,
        ) == contents_at(m, g, a.layout[b].objects[i].location)) by {
        lemma_hit_iff(m, g, a, p, b, i);
        lemma_hit_iff(m2, g, a2, p, b, i);
        if is_entry(a.layout, b, i) && !(b == eb && i == ei) {
            assert(is_entry(a2.layout, b, i));
        }
        if is_entry(a2.layout, b, i) {
            assert(is_entry(a.layout, b, i));
        }
        if is_hit(m, g, a.layout, p, b, i) {
            lemma_entry_contents(m, g, a, b, i);
            lemma_entry_contents(m2, g, a2, b, i);
        }
    }
}

/// Where a scan has the hits it had, it finds the files it found.
pub proof fn lemma_files_by_hits(
    m: Contents,
    m2: Contents,
    g: Geometry,
    l: Seq<BlockLayout>,
    l2: Seq<BlockLayout>,
    eb: int,
    ei: int,
)
    requires
        layout_of(m, g) == l,
        layout_of(m2, g) == l2,
        hits_kept(m, m2, g, l, l2, eb, ei, false),
    ensures
        files(m2, g) == files(m, g),
{
    let f = files(m, g);
    let f2 = files(m2, g);
    assert forall|p: Seq<u8>| (#[trigger] f2.dom().contains(p) <==> f.dom().contains(p)) && (
    f.dom().contains(p) ==> f2[p] == f[p]) by {
        lemma_lookup_by_hits(m, m2, g, l, l2, p);
        if lookup_in(m, g, l, p) is Some {
            let (b, i) = choose|b: int, i: int| is_first_hit(m, g, l, p, b, i);
            assert(is_hit(m, g, l, p, b, i));
        }
    }
    assert(f2 =~= f);
}

/// Where a scan for `p` has the hits it had, it finds what it found.
pub proof fn lemma_lookup_by_hits(
    m: Contents,
    m2: Contents,
    g: Geometry,
    l: Seq<BlockLayout>,
    l2: Seq<BlockLayout>,
    p: Seq<u8>,
)
    requires
        forall|b: int, i: int| is_hit(m2, g, l2, p, b, i) <==> #[trigger] is_hit(m, g, l, p, b, i),
        forall|b: int, i: int| #[trigger]
            is_hit(m, g, l, p, b, i) ==> l2[b].objects[i].location == l[b].objects[i].location,
    ensures
        lookup_in(m2, g, l2, p) == lookup_in(m, g, l, p),
{
    if exists|b: int, i: int| is_first_hit(m, g, l, p, b, i) {
        let (b, i) = choose|b: int, i: int| is_first_hit(m, g, l, p, b, i);
        assert(is_hit(m, g, l, p, b, i));
        assert forall|b2: int, i2: int| scanned_before(b2, i2, b, i) implies !#[trigger] is_hit(
            m2,
            g,
            l2,
            p,
            b2,
            i2,
        ) by {
            assert(!is_hit(m, g, l, p, b2, i2));
        }
        lemma_first_hit_unique(m, g, l, p, b, i);
        lemma_first_hit_unique(m2, g, l2, p, b, i);
    } else if exists|b: int, i: int| is_first_hit(m2, g, l2, p, b, i) {
        let (b, i) = choose|b: int, i: int| is_first_hit(m2, g, l2, p, b, i);
        assert(is_hit(m, g, l, p, b, i));
        let first = lemma_first_hit_exists(m, g, l, p, b, i);
    }
}

/// Where a scan has, for every path but `path`, the hits it had, it finds
/// for every other path what it found; what it finds for `path` is what
/// the hits for `path` lead to.
pub proof fn lemma_files_except(
    m: Contents,
    m2: Contents,
    g: Geometry,
    l: Seq<BlockLayout>,
    l2: Seq<BlockLayout>,
    path: Seq<u8>,
)
    requires
        layout_of(m, g) == l,
        layout_of(m2, g) == l2,
        forall|p: Seq<u8>, b: int, i: int|
            p != path ==> (is_hit(m2, g, l2, p, b, i) <==> #[trigger] is_hit(m, g, l, p, b, i)),
        forall|p: Seq<u8>, b: int, i: int| #[trigger]
            is_hit(m, g, l, p, b, i) && p != path ==> l2[b].objects[i].location
                == l[b].objects[i].location && contents_at(m2, g, l[b].objects[i].location)
                == contents_at(m, g, l[b].objects[i].location),
    ensures
        files(m2, g) == (match lookup_in(m2, g, l2, path) {
            Some(location) => files(m, g).insert(path, contents_at(m2, g, location).unwrap()),
            None => files(m, g).remove(path),
        }),
{
    let f = files(m, g);
    let f2 = files(m2, g);
    let target = match lookup_in(m2, g, l2, path) {
        Some(location) => f.insert(path, contents_at(m2, g, location).unwrap()),
        None => f.remove(path),
    };
    assert forall|p: Seq<u8>| (#[trigger] f2.dom().contains(p) <==> target.dom().contains(p)) && (
    f2.dom().contains(p) ==> f2[p] == target[p]) by {
        if p != path {
            assert forall|b: int, i: int|
                is_hit(m2, g, l2, p, b, i) <==> #[trigger] is_hit(m, g, l, p, b, i) by {
                let there = is_hit(m, g, l, p, b, i);
            }
            assert forall|b: int, i: int| #[trigger] is_hit(m, g, l, p, b, i) implies l2[b].objects[i].location
                == l[b].objects[i].location by {}
            lemma_lookup_by_hits(m, m2, g, l, l2, p);
            if lookup_in(m, g, l, p) is Some {
                let (b, i) = choose|b: int, i: int| is_first_hit(m, g, l, p, b, i);
                assert(is_hit(m, g, l, p, b, i));
            }
        }
    }
    assert(f2 =~= target);
}

/// A data object of a file reads as the record of the file says: it is
/// finalized, and its link is the link to the next data object.
pub proof fn lemma_chunk_data(
    m: Contents,
    g: Geometry,
    layout: Seq<BlockLayout>,
    r: FileRecord,
    j: int,
)
    requires
        g.valid(),
        laid_out(m, g, layout),
        closed(g, layout),
        0 <= j < r.chunks.len(),
        chunk_held(m, g, layout, r, j),
        j + 1 < r.chunks.len() ==> chunk_held(m, g, layout, r, j + 1),
    ensures
        crate::ll::objects::data_at(m, g, r.chunks[j].at) matches Ok(data) && data.next == r.link(
            j + 1,
        ),
        r.chunks[j].at.block < g.block_count,
        header_fits(g, r.chunks[j].at.offset as int),
        g.aligned(r.chunks[j].at.offset as int),
{
    let c = r.chunks[j];
    let lb = g.spec_object_location_bytes();
    crate::model::state::lemma_held_reader(m, g, layout, BlockType::Data, c.at, c.index);
    crate::model::state::lemma_held_addressable(m, g, layout, BlockType::Data, c.at, c.index);
    assert(held(layout, c.at, c.index) == layout[c.at.block as int].objects[c.index].header);
    let size = lb + c.bytes.len();
    let payload = payload_at(m, g, c.at, size);
    assert(payload.subrange(0, lb) =~= crate::ll::objects::link_encoding(g, r.link(j + 1)));
    if j + 1 < r.chunks.len() {
        crate::model::state::lemma_held_addressable(
            m,
            g,
            layout,
            BlockType::Data,
            r.chunks[j + 1].at,
            r.chunks[j + 1].index,
        );
    }
    crate::ll::objects::lemma_parse_link_encoding(g, r.link(j + 1));
}

/// Object number `i` of block `b` is still to be found: it is the one
/// to keep, or it is none of those that were deleted, which are the
/// objects at `positions` from number `from` on.
pub open spec fn still_hit(
    positions: Seq<(int, int)>,
    from: int,
    keep: Option<(int, int)>,
    b: int,
    i: int,
) -> bool {
    keep == Some((b, i)) || !exists|t: int|
        from <= t < positions.len() && #[trigger] positions[t] == (b, i)
}

/// A scan of `m` has the hits of a scan of `m0`, but for those hits for
/// `path` that were deleted; and what each hit leads to is the same.
pub open spec fn hits_left(
    m0: Contents,
    m: Contents,
    g: Geometry,
    l0: Seq<BlockLayout>,
    l: Seq<BlockLayout>,
    path: Seq<u8>,
    positions: Seq<(int, int)>,
    from: int,
    keep: Option<(int, int)>,
) -> bool {
    &&& forall|p: Seq<u8>, b: int, i: int|
        is_hit(m, g, l, p, b, i) <==> #[trigger] is_hit(m0, g, l0, p, b, i) && (p != path
            || still_hit(positions, from, keep, b, i))
    &&& forall|p: Seq<u8>, b: int, i: int| #[trigger]
        is_hit(m0, g, l0, p, b, i) && (p != path || still_hit(positions, from, keep, b, i))
            ==> l[b].objects[i].location == l0[b].objects[i].location && contents_at(
            m,
            g,
            l0[b].objects[i].location,
        ) == contents_at(m0, g, l0[b].objects[i].location)
}

/// Before anything was deleted, all hits are left.
pub proof fn lemma_hits_left_all(
    m: Contents,
    g: Geometry,
    l: Seq<BlockLayout>,
    path: Seq<u8>,
    positions: Seq<(int, int)>,
    keep: Option<(int, int)>,
)
    ensures
        hits_left(m, m, g, l, l, path, positions, positions.len() as int, keep),
{
}

/// One more hit was deleted, or passed by because it is the one to keep.
pub proof fn lemma_hits_left_step(
    m0: Contents,
    m: Contents,
    m2: Contents,
    g: Geometry,
    l0: Seq<BlockLayout>,
    l: Seq<BlockLayout>,
    l2: Seq<BlockLayout>,
    path: Seq<u8>,
    positions: Seq<(int, int)>,
    from: int,
    keep: Option<(int, int)>,
    gone: bool,
)
    requires
        0 < from <= positions.len(),
        hits_left(m0, m, g, l0, l, path, positions, from, keep),
        hits_kept(m, m2, g, l, l2, positions[from - 1].0, positions[from - 1].1, gone),
        gone <==> keep != Some(positions[from - 1]),
        is_hit(m0, g, l0, path, positions[from - 1].0, positions[from - 1].1),
        forall|p: Seq<u8>| #[trigger]
            is_hit(m0, g, l0, p, positions[from - 1].0, positions[from - 1].1) ==> p == path,
    ensures
        hits_left(m0, m2, g, l0, l2, path, positions, from - 1, keep),
{
    let e = positions[from - 1];
    assert forall|p: Seq<u8>, b: int, i: int|
        (is_hit(m2, g, l2, p, b, i) <==> #[trigger] is_hit(m0, g, l0, p, b, i) && (p != path
            || still_hit(positions, from - 1, keep, b, i))) && (is_hit(m0, g, l0, p, b, i) && (p
            != path || still_hit(positions, from - 1, keep, b, i)) ==> l2[b].objects[i].location
            == l0[b].objects[i].location && contents_at(m2, g, l0[b].objects[i].location)
            == contents_at(m0, g, l0[b].objects[i].location)) by {
        let h0 = is_hit(m0, g, l0, p, b, i);
        let h1 = is_hit(m, g, l, p, b, i);
        let h2 = is_hit(m2, g, l2, p, b, i);
        if p == path {
            if still_hit(positions, from - 1, keep, b, i) {
                assert(still_hit(positions, from, keep, b, i));
                if keep != Some((b, i)) {
                    assert(!(positions[from - 1] == (b, i)));
                }
            } else {
                let t = choose|t: int|
                    from - 1 <= t < positions.len() && #[trigger] positions[t] == (b, i);
                if t >= from {
                    assert(!still_hit(positions, from, keep, b, i));
                }
            }
        } else {
            if b == e.0 && i == e.1 {
                assert(!h0);
            }
        }
    }
}

/// The files that are found once every hit for `path` but the one to keep
/// was deleted.
pub open spec fn files_left(
    m0: Contents,
    g: Geometry,
    l0: Seq<BlockLayout>,
    path: Seq<u8>,
    keep: Option<(int, int)>,
) -> Map<Seq<u8>, Seq<u8>> {
    match keep {
        Some(at) => files(m0, g).insert(
            path,
            contents_at(m0, g, l0[at.0].objects[at.1].location).unwrap(),
        ),
        None => files(m0, g).remove(path),
    }
}

/// While the hits for `path` are deleted from the last to the first, a
/// scan finds the files it found, until the first is deleted; from then on
/// it finds the one that was kept, if one was, and the other files as they
/// were.
pub proof fn lemma_files_left(
    m0: Contents,
    m: Contents,
    g: Geometry,
    l0: Seq<BlockLayout>,
    l: Seq<BlockLayout>,
    path: Seq<u8>,
    found: Seq<ObjectLocation>,
    positions: Seq<(int, int)>,
    from: int,
    keep: Option<(int, int)>,
)
    requires
        layout_of(m0, g) == l0,
        layout_of(m, g) == l,
        0 <= from <= positions.len(),
        hits_left(m0, m, g, l0, l, path, positions, from, keep),
        forall|k: int|
            0 <= k < positions.len() ==> is_hit(
                m0,
                g,
                l0,
                path,
                (#[trigger] positions[k]).0,
                positions[k].1,
            ),
        forall|k: int, j: int|
            0 <= k < j < positions.len() ==> scanned_before(
                (#[trigger] positions[k]).0,
                positions[k].1,
                (#[trigger] positions[j]).0,
                positions[j].1,
            ),
        forall|b: int, i: int| #[trigger]
            is_hit(m0, g, l0, path, b, i) ==> positions.contains((b, i)),
        keep matches Some(at) ==> is_hit(m0, g, l0, path, at.0, at.1),
    ensures
        files(m, g) == files(m0, g) || files(m, g) == files_left(m0, g, l0, path, keep),
        from == 0 ==> files(m, g) == files_left(m0, g, l0, path, keep),
        from == positions.len() ==> files(m, g) == files(m0, g),
{
    assert forall|p: Seq<u8>, b: int, i: int|
        p != path implies (is_hit(m, g, l, p, b, i) <==> #[trigger] is_hit(m0, g, l0, p, b, i)) by {
        let h0 = is_hit(m0, g, l0, p, b, i);
    }
    assert forall|p: Seq<u8>, b: int, i: int| #[trigger]
        is_hit(m0, g, l0, p, b, i) && p != path implies l[b].objects[i].location
        == l0[b].objects[i].location && contents_at(m, g, l0[b].objects[i].location) == contents_at(
        m0,
        g,
        l0[b].objects[i].location,
    ) by {}
    lemma_files_except(m0, m, g, l0, l, path);
    let f0 = files(m0, g);
    // What is the first hit that is left?
    if positions.len() > 0 && still_hit(positions, from, keep, positions[0].0, positions[0].1) {
        // The first hit of all is left: a scan finds what it found.
        let (b, i) = positions[0];
        assert(is_hit(m0, g, l0, path, b, i));
        assert(is_first_hit(m0, g, l0, path, b, i)) by {
            assert forall|b2: int, i2: int| scanned_before(b2, i2, b, i) implies !#[trigger] is_hit(
                m0,
                g,
                l0,
                path,
                b2,
                i2,
            ) by {
                if is_hit(m0, g, l0, path, b2, i2) {
                    assert(positions.contains((b2, i2)));
                    let t = choose|t: int| 0 <= t < positions.len() && positions[t] == (b2, i2);
                    if t > 0 {
                        assert(scanned_before(
                            positions[0].0,
                            positions[0].1,
                            positions[t].0,
                            positions[t].1,
                        ));
                    }
                }
            }
        }
        assert(is_first_hit(m, g, l, path, b, i)) by {
            assert(is_hit(m, g, l, path, b, i));
            assert forall|b2: int, i2: int| scanned_before(b2, i2, b, i) implies !#[trigger] is_hit(
                m,
                g,
                l,
                path,
                b2,
                i2,
            ) by {
                assert(!is_hit(m0, g, l0, path, b2, i2));
            }
        }
        lemma_first_hit_unique(m0, g, l0, path, b, i);
        lemma_first_hit_unique(m, g, l, path, b, i);
        assert(f0.dom().contains(path));
        assert(files(m, g) =~= f0);
        if from == 0 {
            // Only the one to keep is left, and it is the first of all.
            assert(keep == Some((b, i))) by {
                if keep != Some((b, i)) {
                    assert(positions[0] == (b, i));
                }
            }
            assert(f0[path] == contents_at(m0, g, l0[b].objects[i].location).unwrap());
            assert(f0 =~= files_left(m0, g, l0, path, keep));
        }
    } else {
        // The first hit of all was deleted, and with it every hit but the
        // one to keep.
        assert forall|b: int, i: int| is_hit(m, g, l, path, b, i) implies keep == Some((b, i)) by {
            assert(is_hit(m0, g, l0, path, b, i));
            assert(still_hit(positions, from, keep, b, i));
            if keep != Some((b, i)) {
                assert(positions.contains((b, i)));
                let t = choose|t: int| 0 <= t < positions.len() && positions[t] == (b, i);
                if t >= from {
                    assert(false);
                } else {
                    // Hits are deleted from the last on: an earlier one
                    // is left only as long as the first one is.
                    assert(positions.len() > 0);
                    assert(!still_hit(positions, from, keep, positions[0].0, positions[0].1));
                    let z = choose|z: int|
                        from <= z < positions.len() && #[trigger] positions[z] == positions[0];
                    if z > 0 {
                        assert(scanned_before(
                            positions[0].0,
                            positions[0].1,
                            positions[z].0,
                            positions[z].1,
                        ));
                    }
                    assert(from == 0);
                }
            }
        }
        match keep {
            Some(at) => {
                if is_hit(m, g, l, path, at.0, at.1) {
                    assert(is_first_hit(m, g, l, path, at.0, at.1)) by {
                        assert forall|b2: int, i2: int|
                            scanned_before(b2, i2, at.0, at.1) implies !#[trigger] is_hit(
                            m,
                            g,
                            l,
                            path,
                            b2,
                            i2,
                        ) by {
                            if is_hit(m, g, l, path, b2, i2) {
                                assert(keep == Some((b2, i2)));
                            }
                        }
                    }
                    lemma_first_hit_unique(m, g, l, path, at.0, at.1);
                    assert(is_hit(m0, g, l0, path, at.0, at.1));
                } else {
                    assert(still_hit(positions, from, keep, at.0, at.1));
                    assert(false);
                }
            },
            None => {
                if lookup_in(m, g, l, path) is Some {
                    let (b, i) = choose|b: int, i: int| is_first_hit(m, g, l, path, b, i);
                    assert(is_hit(m, g, l, path, b, i));
                }
            },
        }
        if from == positions.len() {
            if positions.len() > 0 {
                assert(still_hit(positions, from, keep, positions[0].0, positions[0].1));
            } else {
                match keep {
                    Some(at) => {
                        assert(positions.contains(at));
                    },
                    None => {
                        if lookup_in(m0, g, l0, path) is Some {
                            let (b, i) = choose|b: int, i: int| is_first_hit(m0, g, l0, path, b, i);
                            assert(is_hit(m0, g, l0, path, b, i));
                            assert(positions.contains((b, i)));
                        }
                        assert(f0.remove(path) =~= f0);
                    },
                }
            }
        }
    }
}

/// What holds once the name object of the live file of entry `(eb, ei)`
/// is deleted, and what the engine reads on the way there.
pub proof fn lemma_name_gone(m: Contents, g: Geometry, a: Model, eb: int, ei: int)
    requires
        refines(m, g, a),
        is_entry(a.layout, eb, ei),
        a.records[a.layout[eb].objects[ei].location].live,
    ensures
        crate::ll::objects::metadata_at(m, g, a.layout[eb].objects[ei].location) matches Ok(meta)
            && meta.filename_location == a.records[a.layout[eb].objects[ei].location].name_at
            && meta.first_data == a.records[a.layout[eb].objects[ei].location].first_link(),
        a.records[a.layout[eb].objects[ei].location].name_at.block < g.block_count,
        header_fits(g, a.records[a.layout[eb].objects[ei].location].name_at.offset as int),
        g.aligned(a.records[a.layout[eb].objects[ei].location].name_at.offset as int),
        refines(
            state_set(
                m,
                g,
                a.records[a.layout[eb].objects[ei].location].name_at,
                ObjectState::Deleted,
            ),
            g,
            name_deleted(a, eb, ei),
        ),
        hits_kept(
            m,
            state_set(
                m,
                g,
                a.records[a.layout[eb].objects[ei].location].name_at,
                ObjectState::Deleted,
            ),
            g,
            a.layout,
            name_deleted(a, eb, ei).layout,
            eb,
            ei,
            true,
        ),
        name_deleted(a, eb, ei).layout.len() == a.layout.len(),
        forall|x: int|
            0 <= x < a.layout.len() ==> (#[trigger] name_deleted(a, eb, ei).layout[x]).kind
                == a.layout[x].kind && end_of(g, name_deleted(a, eb, ei).layout[x].objects)
                == end_of(g, a.layout[x].objects),
        is_entry(name_deleted(a, eb, ei).layout, eb, ei),
        name_deleted(a, eb, ei).layout[eb].objects[ei] == a.layout[eb].objects[ei],
        !name_deleted(a, eb, ei).records[a.layout[eb].objects[ei].location].live,
        name_deleted(a, eb, ei).records[a.layout[eb].objects[ei].location].name_at
            == a.records[a.layout[eb].objects[ei].location].name_at,
        apart(a.records[a.layout[eb].objects[ei].location]),
        a.records[a.layout[eb].objects[ei].location].chunks.len() <= spec_max_hops(g),
        forall|x: int|
            0 <= x < a.records[a.layout[eb].objects[ei].location].chunks.len()
                ==> #[trigger] chunk_held(
                state_set(
                    m,
                    g,
                    a.records[a.layout[eb].objects[ei].location].name_at,
                    ObjectState::Deleted,
                ),
                g,
                name_deleted(a, eb, ei).layout,
                a.records[a.layout[eb].objects[ei].location],
                x,
            ) && name_deleted(a, eb, ei).owner.dom().contains(
                a.records[a.layout[eb].objects[ei].location].chunks[x].at,
            ) && name_deleted(
                a,
                eb,
                ei,
            ).owner[a.records[a.layout[eb].objects[ei].location].chunks[x].at]
                == a.layout[eb].objects[ei].location,
{
    let at = a.layout[eb].objects[ei].location;
    let r = a.records[at];
    lemma_refines_facts(m, g, a);
    lemma_entry_metadata(m, g, a, eb, ei);
    lemma_delete_name(m, g, a, eb, ei);
    lemma_delete_name_hits(m, g, a, eb, ei);
    assert(holds(a.layout, BlockType::Data, r.name_at, r.name_index) && apart(r)
        && r.chunks.len() <= spec_max_hops(g)) by {
        reveal(refines);
        assert(record_ok(m, g, a, a.layout[eb].objects[ei], r));
    }
    crate::model::state::lemma_held_addressable(
        m,
        g,
        a.layout,
        BlockType::Data,
        r.name_at,
        r.name_index,
    );
    assert forall|x: int| 0 <= x < r.chunks.len() implies #[trigger] chunk_held(
        state_set(m, g, r.name_at, ObjectState::Deleted),
        g,
        name_deleted(a, eb, ei).layout,
        r,
        x,
    ) && name_deleted(a, eb, ei).owner.dom().contains(r.chunks[x].at) && name_deleted(
        a,
        eb,
        ei,
    ).owner[r.chunks[x].at] == at by {
        lemma_delete_name_chunk(m, g, a, eb, ei, x);
    }
    assert(is_entry(name_deleted(a, eb, ei).layout, eb, ei));
}

} // verus!
