//! The files in the order in which a scan meets them: what a walk through
//! the directory has still to come to.

use vstd::prelude::*;

use crate::ll::blocks::{
    laid_out, lemma_layout_bounds, place_of, start_of, BlockLayout, BlockType, HEADER_BYTES,
};
use crate::ll::objects::{lemma_step_object, step_at, ObjectLocation, Step};
use crate::medium::{Contents, Geometry};
use crate::model::{
    files, is_first_hit, is_hit, lemma_layout_order, lemma_layout_unique, lookup, matches_at,
};
use crate::model::state::lemma_held_header;

verus! {

/// The location lies at or behind the given place, in the order of a scan.
pub open spec fn at_or_behind(at: ObjectLocation, block: int, offset: int) -> bool {
    at.block > block || (at.block == block && at.offset >= offset)
}

/// The names of the files whose metadata object lies at or behind the
/// given place.
pub open spec fn names_from(m: Contents, g: Geometry, block: int, offset: int) -> Set<Seq<u8>> {
    Set::new(
        |path: Seq<u8>|
            lookup(m, g, path) matches Some(at) && at_or_behind(at, block, offset),
    )
}

/// The metadata object of a file is the first hit of a scan for its name.
pub proof fn lemma_lookup_place(m: Contents, g: Geometry, layout: Seq<BlockLayout>, path: Seq<u8>) -> (pos:
    (int, int))
    requires
        g.valid(),
        laid_out(m, g, layout),
        lookup(m, g, path) is Some,
    ensures
        is_first_hit(m, g, layout, path, pos.0, pos.1),
        layout[pos.0].objects[pos.1].location == lookup(m, g, path).unwrap(),
{
    lemma_layout_unique(m, g, layout);
    choose|b: int, i: int| is_first_hit(m, g, layout, path, b, i)
}

/// An object lies at or behind the start of another exactly if a scan
/// does not meet it earlier.
pub proof fn lemma_behind_iff(
    m: Contents,
    g: Geometry,
    layout: Seq<BlockLayout>,
    b: int,
    i: int,
    b2: int,
    i2: int,
)
    requires
        g.valid(),
        laid_out(m, g, layout),
        0 <= b < layout.len(),
        0 <= i <= layout[b].objects.len(),
        0 <= b2 < layout.len(),
        0 <= i2 < layout[b2].objects.len(),
    ensures
        at_or_behind(layout[b2].objects[i2].location, b, start_of(g, layout[b].objects, i)) == (b2
            > b || (b2 == b && i2 >= i)),
{
    lemma_held_header(m, g, layout, b2, i2);
    lemma_layout_bounds(m, g, b2, layout[b2], i2);
    assert(step_at(m, g, place_of(g, b2, layout[b2].objects, i2)) == Step::Object(
        layout[b2].objects[i2],
    ));
    lemma_step_object(
        m,
        g,
        place_of(g, b2, layout[b2].objects, i2),
        layout[b2].objects[i2],
    );
    if b2 == b {
        if i2 < i {
            lemma_layout_order(m, g, b, layout[b], i2, i);
        } else if i2 > i {
            lemma_layout_bounds(m, g, b, layout[b], i);
            assert(step_at(m, g, place_of(g, b, layout[b].objects, i)) == Step::Object(
                layout[b].objects[i],
            ));
            lemma_step_object(m, g, place_of(g, b, layout[b].objects, i), layout[b].objects[i]);
            lemma_layout_order(m, g, b, layout[b], i, i2);
        }
    }
}

/// A metadata object is the first hit for at most one name.
pub proof fn lemma_one_name(
    m: Contents,
    g: Geometry,
    layout: Seq<BlockLayout>,
    first: Seq<u8>,
    second: Seq<u8>,
    b: int,
    i: int,
)
    requires
        is_hit(m, g, layout, first, b, i),
        is_hit(m, g, layout, second, b, i),
    ensures
        first == second,
{
    reveal(matches_at);
}

/// A walk that starts before the first object has every file to come.
pub proof fn lemma_names_all(m: Contents, g: Geometry, layout: Seq<BlockLayout>)
    requires
        g.valid(),
        laid_out(m, g, layout),
    ensures
        names_from(m, g, 0, HEADER_BYTES as int) == files(m, g).dom(),
{
    assert forall|path: Seq<u8>|
        names_from(m, g, 0, HEADER_BYTES as int).contains(path) == files(m, g).dom().contains(
            path,
        ) by {
        if lookup(m, g, path) is Some {
            let pos = lemma_lookup_place(m, g, layout, path);
            lemma_behind_iff(m, g, layout, 0, 0, pos.0, pos.1);
        }
    }
    assert(names_from(m, g, 0, HEADER_BYTES as int) =~= files(m, g).dom());
}

/// A walk that passes an object which is the metadata object of no file
/// has the same files to come as before.
pub proof fn lemma_names_skip(m: Contents, g: Geometry, layout: Seq<BlockLayout>, b: int, i: int)
    requires
        g.valid(),
        laid_out(m, g, layout),
        0 <= b < layout.len(),
        0 <= i < layout[b].objects.len(),
        forall|path: Seq<u8>| #[trigger]
            lookup(m, g, path) != Some(layout[b].objects[i].location),
    ensures
        names_from(m, g, b, start_of(g, layout[b].objects, i)) == names_from(
            m,
            g,
            b,
            start_of(g, layout[b].objects, i + 1),
        ),
{
    let from = names_from(m, g, b, start_of(g, layout[b].objects, i));
    let to = names_from(m, g, b, start_of(g, layout[b].objects, i + 1));
    assert forall|path: Seq<u8>| from.contains(path) == to.contains(path) by {
        if lookup(m, g, path) is Some {
            let pos = lemma_lookup_place(m, g, layout, path);
            lemma_behind_iff(m, g, layout, b, i, pos.0, pos.1);
            lemma_behind_iff(m, g, layout, b, i + 1, pos.0, pos.1);
        }
    }
    assert(from =~= to);
}

/// A walk that passes the metadata object of the file `name` has that
/// file no longer to come, and every other as before.
pub proof fn lemma_names_take(
    m: Contents,
    g: Geometry,
    layout: Seq<BlockLayout>,
    b: int,
    i: int,
    name: Seq<u8>,
)
    requires
        g.valid(),
        laid_out(m, g, layout),
        0 <= b < layout.len(),
        0 <= i < layout[b].objects.len(),
        lookup(m, g, name) == Some(layout[b].objects[i].location),
    ensures
        names_from(m, g, b, start_of(g, layout[b].objects, i)).contains(name),
        files(m, g).dom().contains(name),
        names_from(m, g, b, start_of(g, layout[b].objects, i + 1)) == names_from(
            m,
            g,
            b,
            start_of(g, layout[b].objects, i),
        ).remove(name),
{
    let from = names_from(m, g, b, start_of(g, layout[b].objects, i));
    let to = names_from(m, g, b, start_of(g, layout[b].objects, i + 1));
    let here = lemma_lookup_place(m, g, layout, name);
    lemma_held_header(m, g, layout, here.0, here.1);
    lemma_held_header(m, g, layout, b, i);
    crate::model::remove::lemma_same_place(m, g, layout, b, i, here.1);
    lemma_behind_iff(m, g, layout, b, i, b, i);
    lemma_behind_iff(m, g, layout, b, i + 1, b, i);
    assert forall|path: Seq<u8>| from.remove(name).contains(path) == to.contains(path) by {
        if lookup(m, g, path) is Some {
            let pos = lemma_lookup_place(m, g, layout, path);
            lemma_behind_iff(m, g, layout, b, i, pos.0, pos.1);
            lemma_behind_iff(m, g, layout, b, i + 1, pos.0, pos.1);
            if pos == (b, i) {
                lemma_one_name(m, g, layout, path, name, b, i);
            }
        }
    }
    assert(from.remove(name) =~= to);
}

/// A walk that leaves a block behind its last object, or leaves a block
/// that holds no metadata, has the same files to come as before.
pub proof fn lemma_names_next_block(
    m: Contents,
    g: Geometry,
    layout: Seq<BlockLayout>,
    b: int,
    i: int,
)
    requires
        g.valid(),
        laid_out(m, g, layout),
        0 <= b < layout.len(),
        0 <= i <= layout[b].objects.len(),
        i == layout[b].objects.len() || layout[b].kind != BlockType::Metadata,
    ensures
        names_from(m, g, b, start_of(g, layout[b].objects, i)) == names_from(
            m,
            g,
            b + 1,
            HEADER_BYTES as int,
        ),
{
    let from = names_from(m, g, b, start_of(g, layout[b].objects, i));
    let to = names_from(m, g, b + 1, HEADER_BYTES as int);
    assert forall|path: Seq<u8>| from.contains(path) == to.contains(path) by {
        if lookup(m, g, path) is Some {
            let pos = lemma_lookup_place(m, g, layout, path);
            lemma_behind_iff(m, g, layout, b, i, pos.0, pos.1);
            lemma_held_header(m, g, layout, pos.0, pos.1);
        }
    }
    assert(from =~= to);
}

/// Behind the last block no file is to come.
pub proof fn lemma_names_end(
    m: Contents,
    g: Geometry,
    layout: Seq<BlockLayout>,
    block: int,
    offset: int,
)
    requires
        g.valid(),
        laid_out(m, g, layout),
        block >= layout.len(),
    ensures
        names_from(m, g, block, offset) == Set::<Seq<u8>>::empty(),
{
    assert forall|path: Seq<u8>| !names_from(m, g, block, offset).contains(path) by {
        if lookup(m, g, path) is Some {
            let pos = lemma_lookup_place(m, g, layout, path);
            lemma_held_header(m, g, layout, pos.0, pos.1);
        }
    }
    assert(names_from(m, g, block, offset) =~= Set::<Seq<u8>>::empty());
}

/// An object that is a hit only for names that are found elsewhere is the
/// metadata object of no file.
pub proof fn lemma_not_looked_up(m: Contents, g: Geometry, layout: Seq<BlockLayout>, b: int, i: int)
    requires
        g.valid(),
        laid_out(m, g, layout),
        0 <= b < layout.len(),
        0 <= i < layout[b].objects.len(),
        forall|path: Seq<u8>| #[trigger]
            is_hit(m, g, layout, path, b, i) ==> lookup(m, g, path) != Some(
                layout[b].objects[i].location,
            ),
    ensures
        forall|path: Seq<u8>| #[trigger]
            lookup(m, g, path) != Some(layout[b].objects[i].location),
{
    assert forall|path: Seq<u8>| #[trigger]
        lookup(m, g, path) != Some(layout[b].objects[i].location) by {
        if lookup(m, g, path) == Some(layout[b].objects[i].location) {
            let pos = lemma_lookup_place(m, g, layout, path);
            lemma_held_header(m, g, layout, pos.0, pos.1);
            lemma_held_header(m, g, layout, b, i);
            crate::model::remove::lemma_same_place(m, g, layout, b, i, pos.1);
            assert(is_hit(m, g, layout, path, b, i));
        }
    }
}

} // verus!
