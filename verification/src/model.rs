//! What the bytes of a medium mean: the files that a scan finds on it, and
//! the conditions under which the engine keeps its promises.

use vstd::prelude::*;

use crate::ll::blocks::{
    block_laid_out, laid_out, lemma_layout_bounds, place_of, start_of, BlockLayout, BlockType,
};
use crate::ll::objects::{
    chunk_at, data_at, metadata_at, path_hash, payload_at, step_at, ObjectLocation, ObjectReader,
    Step,
};
use crate::medium::{Contents, Geometry};

pub mod erase;
pub mod laws;
pub mod listing;
pub mod marks;
pub mod object;
pub mod remove;
pub mod room;
pub mod state;
pub mod steps;

verus! {

/// The number of objects that the longest chain the engine follows can
/// have: no medium has room for more.
pub open spec fn spec_max_hops(g: Geometry) -> int {
    g.block_count * g.block_size
}

/// The contents of the file whose data objects start at `link`: the parts
/// that the objects of the chain hold, one after the other. `None` where an
/// object of the chain cannot be read as a data object, or the chain has
/// more than `fuel` objects.
pub open spec fn chain_data(m: Contents, g: Geometry, link: Option<ObjectLocation>, fuel: nat) -> Option<
    Seq<u8>,
>
    decreases fuel,
{
    match link {
        None => Some(Seq::empty()),
        Some(location) => if fuel == 0 {
            None
        } else {
            match data_at(m, g, location) {
                Err(_) => None,
                Ok(data) => match chain_data(m, g, data.next, (fuel - 1) as nat) {
                    None => None,
                    Some(rest) => Some(
                        chunk_at(m, g, location, data.object.object_size as int) + rest,
                    ),
                },
            }
        },
    }
}

/// The metadata object at `location` names the file `path`: the hash fits,
/// and the object that holds the name is finalized and holds `path`.
#[verifier::opaque]
pub open spec fn matches_at(m: Contents, g: Geometry, location: ObjectLocation, path: Seq<u8>) -> bool {
    match metadata_at(m, g, location) {
        Ok(meta) => meta.path_hash == path_hash(path) && (match ObjectReader::spec_new(
            m,
            g,
            meta.filename_location,
        ) {
            Ok(name) => payload_at(m, g, meta.filename_location, name.object_size as int) == path,
            Err(_) => false,
        }),
        Err(_) => false,
    }
}

/// Object number `index` of block `block` is in a metadata block and names
/// the file `path`.
pub open spec fn is_hit(
    m: Contents,
    g: Geometry,
    layout: Seq<BlockLayout>,
    path: Seq<u8>,
    block: int,
    index: int,
) -> bool {
    &&& 0 <= block < layout.len()
    &&& 0 <= index < layout[block].objects.len()
    &&& layout[block].kind == BlockType::Metadata
    &&& matches_at(m, g, layout[block].objects[index].location, path)
}

/// The order of a scan: block by block, and within a block object by
/// object.
pub open spec fn scanned_before(block: int, index: int, other_block: int, other_index: int) -> bool {
    block < other_block || (block == other_block && index < other_index)
}

/// Object number `index` of block `block` is the first that a scan for
/// `path` meets. It is the one that a lookup takes.
///
/// Two metadata objects name one path only between two writes: after the
/// metadata object of a new file was finalized and before the one before
/// it was deleted. Where power is lost there, a lookup finds one of the two
/// files, whole: the one that a scan meets first, which need not be the
/// one that was written last, as the format keeps no count of generations.
/// The next store or delete under the path deletes every other one. While
/// blocks are cleared, the two hold the same contents, so that it makes no
/// difference which of them is taken.
pub open spec fn is_first_hit(
    m: Contents,
    g: Geometry,
    layout: Seq<BlockLayout>,
    path: Seq<u8>,
    block: int,
    index: int,
) -> bool {
    &&& is_hit(m, g, layout, path, block, index)
    &&& forall|b: int, i: int|
        scanned_before(b, i, block, index) ==> !#[trigger] is_hit(m, g, layout, path, b, i)
}

/// The metadata object of the file stored under `path`: the first that a
/// scan over `layout` meets.
pub open spec fn lookup_in(m: Contents, g: Geometry, layout: Seq<BlockLayout>, path: Seq<u8>) -> Option<
    ObjectLocation,
> {
    if exists|b: int, i: int| is_first_hit(m, g, layout, path, b, i) {
        let (b, i) = choose|b: int, i: int| is_first_hit(m, g, layout, path, b, i);
        Some(layout[b].objects[i].location)
    } else {
        None
    }
}

/// A scan of the medium comes through: every block has a valid header and
/// every object that the scan meets has a valid state.
pub open spec fn parses(m: Contents, g: Geometry) -> bool {
    exists|layout: Seq<BlockLayout>| laid_out(m, g, layout)
}

/// What a scan of the medium finds.
pub open spec fn layout_of(m: Contents, g: Geometry) -> Seq<BlockLayout> {
    choose|layout: Seq<BlockLayout>| laid_out(m, g, layout)
}

/// The metadata object of the file stored under `path`.
pub open spec fn lookup(m: Contents, g: Geometry, path: Seq<u8>) -> Option<ObjectLocation> {
    lookup_in(m, g, layout_of(m, g), path)
}

/// The contents of the file whose metadata object is at `location`.
pub open spec fn contents_at(m: Contents, g: Geometry, location: ObjectLocation) -> Option<Seq<u8>> {
    match metadata_at(m, g, location) {
        Ok(meta) => chain_data(m, g, meta.first_data, spec_max_hops(g) as nat),
        Err(_) => None,
    }
}

/// The files that the medium holds: for each path that a scan finds, the
/// contents of the first file of that name.
pub open spec fn files(m: Contents, g: Geometry) -> Map<Seq<u8>, Seq<u8>> {
    Map::new(
        |path: Seq<u8>| lookup(m, g, path) is Some,
        |path: Seq<u8>| contents_at(m, g, lookup(m, g, path).unwrap()).unwrap(),
    )
}

/// A scan has at most one first hit.
pub proof fn lemma_first_hit_unique(
    m: Contents,
    g: Geometry,
    layout: Seq<BlockLayout>,
    path: Seq<u8>,
    block: int,
    index: int,
)
    requires
        is_first_hit(m, g, layout, path, block, index),
    ensures
        lookup_in(m, g, layout, path) == Some(layout[block].objects[index].location),
{
    let (b, i) = choose|b: int, i: int| is_first_hit(m, g, layout, path, b, i);
    if scanned_before(b, i, block, index) {
        assert(!is_hit(m, g, layout, path, b, i));
    }
    if scanned_before(block, index, b, i) {
        assert(!is_hit(m, g, layout, path, block, index));
    }
}

/// Where a scan for `path` has a hit, it has a first hit, which is that
/// hit or comes before it.
pub proof fn lemma_first_hit_exists(
    m: Contents,
    g: Geometry,
    layout: Seq<BlockLayout>,
    path: Seq<u8>,
    block: int,
    index: int,
) -> (first: (int, int))
    requires
        is_hit(m, g, layout, path, block, index),
    ensures
        is_first_hit(m, g, layout, path, first.0, first.1),
        first == (block, index) || scanned_before(first.0, first.1, block, index),
    decreases block, index,
{
    if exists|b: int, i: int|
        scanned_before(b, i, block, index) && is_hit(m, g, layout, path, b, i) {
        let (b, i) = choose|b: int, i: int|
            scanned_before(b, i, block, index) && is_hit(m, g, layout, path, b, i);
        lemma_first_hit_exists(m, g, layout, path, b, i)
    } else {
        (block, index)
    }
}

/// In a layout each object starts behind the end of every object before it.
pub proof fn lemma_layout_order(
    m: Contents,
    g: Geometry,
    block: int,
    layout: BlockLayout,
    i: int,
    j: int,
)
    requires
        g.valid(),
        0 <= block < g.block_count,
        block_laid_out(m, g, block, layout),
        0 <= i < j <= layout.objects.len(),
    ensures
        layout.objects[i].end(g) <= start_of(g, layout.objects, j),
        layout.objects[i].location.offset < start_of(g, layout.objects, j),
    decreases j - i,
{
    lemma_layout_bounds(m, g, block, layout, i);
    lemma_layout_bounds(m, g, block, layout, j - 1);
    if i < j - 1 {
        lemma_layout_order(m, g, block, layout, i, j - 1);
    }
}

/// Two layouts of one block are the same up to the end of the shorter.
pub proof fn lemma_layout_prefix(
    m: Contents,
    g: Geometry,
    block: int,
    a: BlockLayout,
    b: BlockLayout,
    i: int,
)
    requires
        g.valid(),
        0 <= block < g.block_count,
        block_laid_out(m, g, block, a),
        block_laid_out(m, g, block, b),
        0 <= i <= a.objects.len(),
        i <= b.objects.len(),
    ensures
        a.objects.take(i) == b.objects.take(i),
        start_of(g, a.objects, i) == start_of(g, b.objects, i),
    decreases i,
{
    if i > 0 {
        lemma_layout_prefix(m, g, block, a, b, i - 1);
        assert(step_at(m, g, place_of(g, block, a.objects, i - 1)) == Step::Object(
            a.objects[i - 1],
        ));
        assert(step_at(m, g, place_of(g, block, b.objects, i - 1)) == Step::Object(
            b.objects[i - 1],
        ));
        assert(a.objects.take(i) =~= a.objects.take(i - 1).push(a.objects[i - 1]));
        assert(b.objects.take(i) =~= b.objects.take(i - 1).push(b.objects[i - 1]));
    } else {
        assert(a.objects.take(0) =~= b.objects.take(0));
    }
}

/// A block has at most one layout.
pub proof fn lemma_block_layout_unique(
    m: Contents,
    g: Geometry,
    block: int,
    a: BlockLayout,
    b: BlockLayout,
)
    requires
        g.valid(),
        0 <= block < g.block_count,
        block_laid_out(m, g, block, a),
        block_laid_out(m, g, block, b),
    ensures
        a == b,
{
    let n = if a.objects.len() <= b.objects.len() {
        a.objects.len() as int
    } else {
        b.objects.len() as int
    };
    lemma_layout_prefix(m, g, block, a, b, n);
    if a.objects.len() < b.objects.len() {
        assert(step_at(m, g, place_of(g, block, b.objects, n)) == Step::Object(b.objects[n]));
    }
    if b.objects.len() < a.objects.len() {
        assert(step_at(m, g, place_of(g, block, a.objects, n)) == Step::Object(a.objects[n]));
    }
    assert(a.objects.take(n) =~= a.objects);
    assert(b.objects.take(n) =~= b.objects);
}

/// A medium has at most one layout: it is what a scan finds.
pub proof fn lemma_layout_unique(m: Contents, g: Geometry, layout: Seq<BlockLayout>)
    requires
        g.valid(),
        laid_out(m, g, layout),
    ensures
        parses(m, g),
        layout_of(m, g) == layout,
{
    let other = layout_of(m, g);
    assert forall|b: int| 0 <= b < layout.len() implies layout[b] == other[b] by {
        lemma_block_layout_unique(m, g, b, layout[b], other[b]);
    }
    assert(layout =~= other);
}

} // verus!
