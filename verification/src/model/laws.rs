//! What the operations of the storage mean for whoever reads the files,
//! stated over the files that the medium holds.

use vstd::prelude::*;

use crate::ll::blocks::{formatted, HEADER_BYTES};
use crate::medium::{Contents, Geometry};
use crate::model::{files, lookup};
use crate::model::room::{
    cache_after_store, chunk_count, fresh_cache, lemma_room_for_spares, lemma_spares_fresh,
};
use crate::model::state::{consistent, lemma_formatted};
use crate::model::steps::crash_safe;

verus! {

/// Under a path that holds no file nothing is found, and on a medium that
/// was formatted and never stored to, no path holds a file.
pub proof fn lemma_never_stored(m: Contents, g: Geometry, metadata_blocks: int, path: Seq<u8>)
    requires
        g.valid(),
        0 <= metadata_blocks <= g.block_count,
    ensures
        !files(formatted(g, metadata_blocks), g).dom().contains(path),
        !files(m, g).dom().contains(path) <==> lookup(m, g, path) is None,
{
    lemma_formatted(g, metadata_blocks);
}

/// What was stored under a path is what is read under it, and every other
/// path holds what it held.
pub proof fn lemma_store_then_read(
    before: Map<Seq<u8>, Seq<u8>>,
    path: Seq<u8>,
    data: Seq<u8>,
    other: Seq<u8>,
)
    requires
        other != path,
    ensures
        before.insert(path, data).dom().contains(path),
        before.insert(path, data)[path] == data,
        before.insert(path, data).dom().contains(other) == before.dom().contains(other),
        before.dom().contains(other) ==> before.insert(path, data)[other] == before[other],
{
}

/// What was deleted is no longer found, and every other path holds what
/// it held.
pub proof fn lemma_delete_then_read(before: Map<Seq<u8>, Seq<u8>>, path: Seq<u8>, other: Seq<u8>)
    requires
        other != path,
    ensures
        !before.remove(path).dom().contains(path),
        before.remove(path).dom().contains(other) == before.dom().contains(other),
        before.dom().contains(other) ==> before.remove(path)[other] == before[other],
{
}

/// While `data` is stored under a path, the path holds at every step
/// either what it held before or `data`, whole, and every other path holds
/// what it held: whenever power is lost, that is what is found. Where the
/// path held a file before, it holds one at every step.
pub proof fn lemma_store_atomic(
    trace: Seq<Contents>,
    from: int,
    g: Geometry,
    before: Map<Seq<u8>, Seq<u8>>,
    path: Seq<u8>,
    data: Seq<u8>,
    step: int,
    other: Seq<u8>,
)
    requires
        crash_safe(trace, from, g, before, before.insert(path, data)),
        from <= step < trace.len(),
        other != path,
    ensures
        consistent(trace[step], g),
        files(trace[step], g).dom().contains(path) ==> files(trace[step], g)[path] == data || (
        before.dom().contains(path) && files(trace[step], g)[path] == before[path]),
        before.dom().contains(path) ==> files(trace[step], g).dom().contains(path),
        files(trace[step], g).dom().contains(other) == before.dom().contains(other),
        before.dom().contains(other) ==> files(trace[step], g)[other] == before[other],
{
}

/// While the file under a path is deleted, the path holds at every step
/// either the whole file or nothing, and every other path holds what it
/// held.
pub proof fn lemma_delete_atomic(
    trace: Seq<Contents>,
    from: int,
    g: Geometry,
    before: Map<Seq<u8>, Seq<u8>>,
    path: Seq<u8>,
    step: int,
    other: Seq<u8>,
)
    requires
        crash_safe(trace, from, g, before, before.remove(path)),
        from <= step < trace.len(),
        other != path,
    ensures
        consistent(trace[step], g),
        files(trace[step], g).dom().contains(path) ==> before.dom().contains(path) && files(
            trace[step],
            g,
        )[path] == before[path],
        files(trace[step], g).dom().contains(other) == before.dom().contains(other),
        before.dom().contains(other) ==> files(trace[step], g)[other] == before[other],
{
}

/// While blocks are cleared and erased, every path holds at every step
/// what it held before.
pub proof fn lemma_collect_keeps(
    trace: Seq<Contents>,
    from: int,
    g: Geometry,
    before: Map<Seq<u8>, Seq<u8>>,
    step: int,
)
    requires
        crash_safe(trace, from, g, before, before),
        from <= step < trace.len(),
    ensures
        consistent(trace[step], g),
        files(trace[step], g) == before,
{
}

/// On a freshly formatted medium a file finds room for every size that
/// the blocks behind the metadata blocks can hold: one block for the
/// object that holds the name, one for each data object, and one more.
pub proof fn lemma_fresh_has_room(g: Geometry, metadata_blocks: int, name: int, data: int)
    requires
        g.valid(),
        0 <= metadata_blocks <= g.block_count,
        name <= g.block_size - HEADER_BYTES - g.spec_object_header_bytes(),
        g.block_count - metadata_blocks >= chunk_count(g, data) + 2,
    ensures
        cache_after_store(fresh_cache(g, metadata_blocks), g, None, name, data) is Some,
{
    lemma_spares_fresh(g, metadata_blocks, g.block_count as int);
    lemma_room_for_spares(fresh_cache(g, metadata_blocks), g, name, data);
}

} // verus!
