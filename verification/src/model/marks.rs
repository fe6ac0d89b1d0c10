//! Deleting a file, write by write: which objects are marked deleted, in
//! which order, and what that does to the entries.

use vstd::prelude::*;

use crate::ll::blocks::{laid_out, lemma_layout_bounds, start_of, BlockLayout, HEADER_BYTES};
use crate::ll::objects::{ObjectInfo, ObjectLocation, ObjectState};
use crate::ll::writer::state_set;
use crate::medium::{Contents, Geometry};
use crate::model::scanned_before;
use crate::model::erase::reaches;
use crate::model::remove::{lemma_delete_entry, lemma_delete_name, name_deleted, object_deleted};
use crate::model::state::{is_entry, record_ok, refines, FileRecord, Model};
use crate::model::steps::{added_entry, same_entries};

verus! {

/// The objects of a file in the order in which they are deleted: the
/// object that holds the name, the data objects along the links, and the
/// metadata object last.
pub open spec fn places_of(r: FileRecord, meta: ObjectLocation) -> Seq<ObjectLocation> {
    seq![r.name_at] + Seq::new(r.chunks.len(), |j: int| r.chunks[j].at) + seq![meta]
}

/// The contents once the objects at `places`, from number `from` up to
/// number `to`, were marked deleted one after the other.
pub open spec fn marked(
    m: Contents,
    g: Geometry,
    places: Seq<ObjectLocation>,
    from: int,
    to: int,
) -> Contents
    decreases to - from,
{
    if to <= from {
        m
    } else {
        state_set(marked(m, g, places, from, to - 1), g, places[to - 1], ObjectState::Deleted)
    }
}

/// The contents that the medium passes through while the objects at
/// `places`, from number `from` up to number `to`, are marked deleted: one
/// step for each object, in their order.
pub open spec fn marking_steps(
    m: Contents,
    g: Geometry,
    places: Seq<ObjectLocation>,
    from: int,
    to: int,
) -> Seq<Contents> {
    Seq::new(
        if to > from {
            (to - from) as nat
        } else {
            0
        },
        |k: int| marked(m, g, places, from, from + k + 1),
    )
}

/// Marking in two runs gives what marking in one gives.
pub proof fn lemma_marked_twice(
    m: Contents,
    g: Geometry,
    places: Seq<ObjectLocation>,
    from: int,
    mid: int,
    to: int,
)
    requires
        from <= mid <= to,
    ensures
        marked(marked(m, g, places, from, mid), g, places, mid, to) == marked(
            m,
            g,
            places,
            from,
            to,
        ),
    decreases to - mid,
{
    if mid < to {
        lemma_marked_twice(m, g, places, from, mid, to - 1);
    }
}

/// Marking in two runs is marking in one.
pub proof fn lemma_marked_join(
    m: Contents,
    g: Geometry,
    places: Seq<ObjectLocation>,
    from: int,
    mid: int,
    to: int,
)
    requires
        from <= mid <= to,
    ensures
        marked(marked(m, g, places, from, mid), g, places, mid, to) == marked(
            m,
            g,
            places,
            from,
            to,
        ),
        marking_steps(m, g, places, from, mid) + marking_steps(
            marked(m, g, places, from, mid),
            g,
            places,
            mid,
            to,
        ) == marking_steps(m, g, places, from, to),
{
    let first = marked(m, g, places, from, mid);
    lemma_marked_twice(m, g, places, from, mid, to);
    let joined = marking_steps(m, g, places, from, mid) + marking_steps(first, g, places, mid, to);
    let whole = marking_steps(m, g, places, from, to);
    assert(joined.len() == whole.len());
    assert forall|k: int| 0 <= k < whole.len() implies joined[k] == whole[k] by {
        if k >= mid - from {
            lemma_marked_twice(m, g, places, from, mid, from + k + 1);
        }
    }
    assert(joined =~= whole);
}

/// The step from `before` to `after` marked the object at `at` deleted.
pub open spec fn is_mark(before: Contents, after: Contents, g: Geometry, at: ObjectLocation) -> bool {
    after == state_set(before, g, at, ObjectState::Deleted)
}

/// The step from `before` to `after` marked one object deleted.
pub open spec fn is_marking(before: Contents, after: Contents, g: Geometry) -> bool {
    exists|at: ObjectLocation| #[trigger] is_mark(before, after, g, at)
}

/// From step number `from` of the trace on, each step marked one object
/// deleted: nothing else was written, and no block was erased.
pub open spec fn only_marks(trace: Seq<Contents>, from: int, g: Geometry) -> bool {
    forall|i: int|
        #![trigger trace[i]]
        1 <= i && from <= i < trace.len() ==> is_marking(trace[i - 1], trace[i], g)
}

/// A trace that grew by marking steps grew by marks only.
pub proof fn lemma_steps_only_mark(
    before: Seq<Contents>,
    m: Contents,
    g: Geometry,
    places: Seq<ObjectLocation>,
    from: int,
    to: int,
)
    requires
        before.len() > 0,
        before.last() == m,
        from <= to,
    ensures
        only_marks(before + marking_steps(m, g, places, from, to), before.len() as int, g),
{
    let trace = before + marking_steps(m, g, places, from, to);
    assert forall|i: int| #![trigger trace[i]] 1 <= i && before.len() <= i < trace.len() implies is_marking(
        trace[i - 1],
        trace[i],
        g,
    ) by {
        let k = i - before.len();
        assert(trace[i] == marked(m, g, places, from, from + k + 1));
        if k == 0 {
            assert(trace[i - 1] == m);
            assert(marked(m, g, places, from, from) == m);
        } else {
            assert(trace[i - 1] == marked(m, g, places, from, from + k));
        }
        assert(is_mark(trace[i - 1], trace[i], g, places[from + k]));
    }
}

/// Marks after marks are marks.
pub proof fn lemma_only_marks_join(
    earlier: Seq<Contents>,
    later: Seq<Contents>,
    from: int,
    g: Geometry,
)
    requires
        0 <= from <= earlier.len() <= later.len(),
        later.take(earlier.len() as int) == earlier,
        only_marks(earlier, from, g),
        only_marks(later, earlier.len() as int, g),
    ensures
        only_marks(later, from, g),
{
    assert forall|i: int| #![trigger later[i]] 1 <= i && from <= i < later.len() implies is_marking(
        later[i - 1],
        later[i],
        g,
    ) by {
        if i < earlier.len() {
            assert(later.take(earlier.len() as int)[i] == later[i]);
            assert(later.take(earlier.len() as int)[i - 1] == later[i - 1]);
            assert(is_marking(earlier[i - 1], earlier[i], g));
        }
    }
}

/// The file `r2` has its objects where the file `r` has them, as far as
/// it still has any.
pub open spec fn narrower(r2: FileRecord, r: FileRecord) -> bool {
    r2.name_at == r.name_at && (r2.live ==> r.live && r2.chunks == r.chunks)
}

/// Every entry of `a2` is an entry of `a`, at the same place and for a
/// file that has its objects where it had them: entries went away, none
/// came.
pub open spec fn entries_shrink(a: Model, a2: Model) -> bool {
    forall|b: int, i: int| #[trigger]
        is_entry(a2.layout, b, i) ==> is_entry(a.layout, b, i) && a2.layout[b].objects[i].location
            == a.layout[b].objects[i].location && narrower(
            a2.records[a2.layout[b].objects[i].location],
            a.records[a.layout[b].objects[i].location],
        )
}

/// The objects of `a2` lie where those of `a` lie, and have their sizes:
/// between the two, states were changed and nothing else.
pub open spec fn same_extents(a: Model, a2: Model) -> bool {
    &&& a2.layout.len() == a.layout.len()
    &&& forall|b: int|
        0 <= b < a.layout.len() ==> (#[trigger] a2.layout[b]).objects.len()
            == a.layout[b].objects.len()
    &&& forall|b: int, i: int|
        0 <= b < a.layout.len() && 0 <= i < a.layout[b].objects.len() ==> (
        #[trigger] a2.layout[b].objects[i]).location == a.layout[b].objects[i].location
            && a2.layout[b].objects[i].header.object_size
            == a.layout[b].objects[i].header.object_size
}

/// Where only states were changed, twice, only states were changed.
pub proof fn lemma_extents_twice(a: Model, a2: Model, a3: Model)
    requires
        same_extents(a, a2),
        same_extents(a2, a3),
    ensures
        same_extents(a, a3),
{
    assert forall|b: int, i: int|
        0 <= b < a.layout.len() && 0 <= i < a.layout[b].objects.len() implies (
    #[trigger] a3.layout[b].objects[i]).location == a.layout[b].objects[i].location
        && a3.layout[b].objects[i].header.object_size
        == a.layout[b].objects[i].header.object_size by {
        assert(a2.layout[b].objects.len() == a.layout[b].objects.len());
        assert(a2.layout[b].objects[i].location == a.layout[b].objects[i].location);
    }
    assert forall|b: int| 0 <= b < a.layout.len() implies (#[trigger] a3.layout[b]).objects.len()
        == a.layout[b].objects.len() by {
        assert(a2.layout[b].objects.len() == a.layout[b].objects.len());
    }
}

/// Marking an object deleted changes its state and nothing else.
pub proof fn lemma_extents_deleted(a: Model, b: int, k: int)
    requires
        0 <= b < a.layout.len(),
        0 <= k < a.layout[b].objects.len(),
    ensures
        same_extents(a, object_deleted(a, b, k)),
{
    let a2 = object_deleted(a, b, k);
    assert forall|x: int, i: int|
        0 <= x < a.layout.len() && 0 <= i < a.layout[x].objects.len() implies (
    #[trigger] a2.layout[x].objects[i]).location == a.layout[x].objects[i].location
        && a2.layout[x].objects[i].header.object_size
        == a.layout[x].objects[i].header.object_size by {
        if x == b && i == k {
        }
    }
}

/// Where only states were changed, every object starts where it started.
pub proof fn lemma_extents_start(a: Model, a2: Model, g: Geometry, b: int, i: int)
    requires
        same_extents(a, a2),
        0 <= b < a.layout.len(),
        0 <= i <= a.layout[b].objects.len(),
    ensures
        start_of(g, a2.layout[b].objects, i) == start_of(g, a.layout[b].objects, i),
{
    reveal(ObjectInfo::end);
    if i > 0 {
        assert(a2.layout[b].objects[i - 1].location == a.layout[b].objects[i - 1].location);
    }
}

/// Entries that went away in two runs went away.
pub proof fn lemma_shrink_twice(a: Model, a2: Model, a3: Model)
    requires
        entries_shrink(a, a2),
        entries_shrink(a2, a3),
    ensures
        entries_shrink(a, a3),
{
    assert forall|b: int, i: int| #[trigger] is_entry(a3.layout, b, i) implies is_entry(
        a.layout,
        b,
        i,
    ) && a3.layout[b].objects[i].location == a.layout[b].objects[i].location && narrower(
        a3.records[a3.layout[b].objects[i].location],
        a.records[a.layout[b].objects[i].location],
    ) by {
        assert(is_entry(a2.layout, b, i));
    }
}

/// Where the entries are the same, none came.
pub proof fn lemma_shrink_same(a: Model, a2: Model)
    requires
        same_entries(a, a2),
    ensures
        entries_shrink(a, a2),
        a2 == a ==> same_extents(a, a2),
{
}

/// Deleting the name object of a live file takes no entry away and
/// brings none.
pub proof fn lemma_shrink_name(m: Contents, g: Geometry, a: Model, eb: int, ei: int)
    requires
        refines(m, g, a),
        is_entry(a.layout, eb, ei),
        a.records[a.layout[eb].objects[ei].location].live,
    ensures
        entries_shrink(a, name_deleted(a, eb, ei)),
        same_extents(a, name_deleted(a, eb, ei)),
{
    let r = a.records[a.layout[eb].objects[ei].location];
    assert(record_ok(m, g, a, a.layout[eb].objects[ei], r)) by {
        reveal(refines);
    }
    lemma_extents_deleted(a, r.name_at.block as int, r.name_index);
    lemma_delete_name(m, g, a, eb, ei);
    let a2 = name_deleted(a, eb, ei);
    assert forall|b: int, i: int| #[trigger] is_entry(a2.layout, b, i) implies is_entry(
        a.layout,
        b,
        i,
    ) && a2.layout[b].objects[i].location == a.layout[b].objects[i].location && narrower(
        a2.records[a2.layout[b].objects[i].location],
        a.records[a.layout[b].objects[i].location],
    ) by {
        assert(is_entry(a.layout, b, i));
        if a.layout[b].objects[i].location == a.layout[eb].objects[ei].location {
        }
    }
}

/// Deleting a metadata object takes its entry away and brings none.
pub proof fn lemma_shrink_entry(m: Contents, g: Geometry, a: Model, eb: int, ei: int)
    requires
        refines(m, g, a),
        is_entry(a.layout, eb, ei),
    ensures
        entries_shrink(a, object_deleted(a, eb, ei)),
        same_extents(a, object_deleted(a, eb, ei)),
        !is_entry(object_deleted(a, eb, ei).layout, eb, ei),
{
    lemma_extents_deleted(a, eb, ei);
    lemma_delete_entry(m, g, a, eb, ei);
    let a2 = object_deleted(a, eb, ei);
    assert forall|b: int, i: int| #[trigger] is_entry(a2.layout, b, i) implies is_entry(
        a.layout,
        b,
        i,
    ) && a2.layout[b].objects[i].location == a.layout[b].objects[i].location && narrower(
        a2.records[a2.layout[b].objects[i].location],
        a.records[a.layout[b].objects[i].location],
    ) by {
        assert(is_entry(a.layout, b, i));
    }
}

/// The file has no object in the block to avoid.
pub open spec fn clear_of(r: FileRecord, avoid: Option<usize>) -> bool {
    avoid matches Some(v) ==> r.name_at.block != v && forall|j: int|
        0 <= j < r.chunks.len() ==> (#[trigger] r.chunks[j]).at.block != v
}

/// Object number `i` of block `b` is an entry that keeps block `v` in use:
/// it stands in the block, or its file has an object there.
pub open spec fn is_tenant(a: Model, v: int, b: int, i: int) -> bool {
    is_entry(a.layout, b, i) && (b == v || reaches(a.records[a.layout[b].objects[i].location], v))
}

/// Every entry of `a2` that keeps block `v` in use is one of `a` that did.
pub open spec fn tenants_shrink(a: Model, a2: Model, v: int) -> bool {
    forall|b: int, i: int| #[trigger] is_entry(a2.layout, b, i) && is_tenant(a2, v, b, i) ==> is_tenant(a, v, b, i)
}

/// Where entries only went away, none came to keep a block in use.
pub proof fn lemma_tenants_of_entries(a: Model, a2: Model, v: int)
    requires
        entries_shrink(a, a2),
    ensures
        tenants_shrink(a, a2, v),
{
    assert forall|b: int, i: int| #[trigger] is_entry(a2.layout, b, i) && is_tenant(
        a2,
        v,
        b,
        i,
    ) implies is_tenant(a, v, b, i) by {
        let r2 = a2.records[a2.layout[b].objects[i].location];
        let r = a.records[a.layout[b].objects[i].location];
        assert(narrower(r2, r));
    }
}

/// An entry that came outside block `v`, for a file without an object
/// there, does not keep the block in use.
pub proof fn lemma_tenants_added(a: Model, a2: Model, v: int, b: int, k: int)
    requires
        added_entry(a, a2, b, k),
        b != v,
        0 <= v <= usize::MAX,
        clear_of(a2.records[a2.layout[b].objects[k].location], Some(v as usize)),
    ensures
        tenants_shrink(a, a2, v),
{
    assert forall|b2: int, i: int| #[trigger] is_entry(a2.layout, b2, i) && is_tenant(
        a2,
        v,
        b2,
        i,
    ) implies is_tenant(a, v, b2, i) by {
        if b2 == b && i == k {
            let r = a2.records[a2.layout[b].objects[k].location];
            assert(!reaches(r, v));
        }
    }
}

/// What went away in two runs went away.
pub proof fn lemma_tenants_twice(a: Model, a2: Model, a3: Model, v: int)
    requires
        tenants_shrink(a, a2, v),
        tenants_shrink(a2, a3, v),
    ensures
        tenants_shrink(a, a3, v),
{
    assert forall|b: int, i: int| #[trigger] is_entry(a3.layout, b, i) && is_tenant(
        a3,
        v,
        b,
        i,
    ) implies is_tenant(a, v, b, i) by {
        assert(is_tenant(a2, v, b, i));
        assert(is_entry(a2.layout, b, i));
    }
}

/// An entry that comes after steps that brought none comes to the entries
/// that there were.
pub proof fn lemma_added_after_same(a: Model, a2: Model, a3: Model, b: int, k: int)
    requires
        same_entries(a, a2),
        a2.records == a.records,
        added_entry(a2, a3, b, k),
    ensures
        added_entry(a, a3, b, k),
{
    assert forall|b2: int, i: int| #[trigger] is_entry(a3.layout, b2, i) && !(b2 == b && i
        == k) implies is_entry(a.layout, b2, i) && a3.layout[b2].objects[i]
        == a.layout[b2].objects[i] && a3.records[a3.layout[b2].objects[i].location]
        == a.records[a.layout[b2].objects[i].location] by {
        assert(is_entry(a2.layout, b2, i));
    }
    assert forall|b2: int, i: int| #[trigger] is_entry(a.layout, b2, i) implies is_entry(
        a3.layout,
        b2,
        i,
    ) by {
        assert(is_entry(a2.layout, b2, i));
    }
    if is_entry(a.layout, b, k) {
        assert(is_entry(a2.layout, b, k));
    }
}

/// Object number `i` of block `b` is the first entry, in the order of a
/// scan, that keeps block `v` in use.
pub open spec fn first_tenant(a: Model, v: int, b: int, i: int) -> bool {
    &&& is_tenant(a, v, b, i)
    &&& forall|b2: int, i2: int|
        scanned_before(b2, i2, b, i) ==> !#[trigger] is_tenant(a, v, b2, i2)
}

/// A block holds fewer objects than it has bytes.
pub proof fn lemma_index_bound(m: Contents, g: Geometry, layout: Seq<BlockLayout>, b: int, i: int)
    requires
        g.valid(),
        laid_out(m, g, layout),
        0 <= b < layout.len(),
        0 <= i <= layout[b].objects.len(),
    ensures
        HEADER_BYTES + i <= start_of(g, layout[b].objects, i) <= g.block_size,
    decreases i,
{
    lemma_layout_bounds(m, g, b, layout[b], i);
    if i > 0 {
        lemma_index_bound(m, g, layout, b, i - 1);
        lemma_layout_bounds(m, g, b, layout[b], i - 1);
    }
}

/// The number of the place of object number `i` of block `b` in the order
/// of a scan.
pub open spec fn position(g: Geometry, b: int, i: int) -> int {
    b * (g.block_size + 1) + i
}

/// The places of a scan are numbered in its order, below the number of
/// bytes of the medium and of its blocks.
pub proof fn lemma_position(g: Geometry, b: int, i: int, b2: int, i2: int)
    requires
        0 <= b,
        0 <= i <= g.block_size,
        0 <= b2 < g.block_count,
        0 <= i2 < g.block_size,
        !scanned_before(b2, i2, b, i),
    ensures
        position(g, b, i) <= position(g, b2, i2) < g.block_count * (g.block_size + 1),
        position(g, b2, i2 + 1) == position(g, b2, i2) + 1,
{
    let w = g.block_size + 1;
    assert(b2 * w + i2 < g.block_count * w) by (nonlinear_arith)
        requires
            0 <= b2 < g.block_count,
            0 <= i2 < w,
    ;
    if b2 > b {
        assert(b * w + i <= b2 * w + i2) by (nonlinear_arith)
            requires
                0 <= b < b2,
                0 <= i < w,
                0 <= i2,
        ;
    }
}

} // verus!
