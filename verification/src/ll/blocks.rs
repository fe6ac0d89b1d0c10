//! Blocks: the erasable units of the medium, each with a small header that
//! says what kind of objects the block holds.

use vstd::prelude::*;

use crate::StorageError;
use crate::ll::objects::{
    header_fits, lemma_end_bounds, lemma_step_object, step_at, untouched, ObjectInfo,
    ObjectIterator, ObjectLocation, Step,
};
use crate::medium::{blank, programmed, Contents, Geometry, StorageMedium};

verus! {

/// The number of bytes at the front of each block that hold its header.
pub const HEADER_BYTES: usize = 4;

/// What a block holds.
#[derive(Clone, Copy, PartialEq, Eq, Structural, Debug)]
pub enum BlockType {
    /// The block is erased and was not given a purpose yet.
    Undefined,
    /// The block holds the objects that name files.
    Metadata,
    /// The block holds file names and file contents.
    Data,
}

impl BlockType {
    /// The first header byte of a block of this kind.
    pub open spec fn tag(self) -> u8 {
        match self {
            BlockType::Undefined => 0xFF,
            BlockType::Metadata => 0x0F,
            BlockType::Data => 0xF0,
        }
    }

    /// The header bytes of a block of this kind.
    pub open spec fn encoding(self) -> Seq<u8> {
        seq![self.tag(), 0xFFu8, 0xFFu8, 0xFFu8]
    }

    /// The header bytes of a block of this kind.
    pub fn into_bytes(self) -> (bytes: [u8; 4])
        ensures
            bytes@ == self.encoding(),
    {
        let tag: u8 = match self {
            BlockType::Undefined => 0xFF,
            BlockType::Metadata => 0x0F,
            BlockType::Data => 0xF0,
        };
        let bytes = [tag, 0xFF, 0xFF, 0xFF];
        assert(bytes@ =~= self.encoding());
        bytes
    }

    /// The kind that header bytes stand for, if any.
    pub open spec fn parse(bytes: Seq<u8>) -> Result<BlockType, StorageError> {
        if bytes == BlockType::Undefined.encoding() {
            Ok(BlockType::Undefined)
        } else if bytes == BlockType::Metadata.encoding() {
            Ok(BlockType::Metadata)
        } else if bytes == BlockType::Data.encoding() {
            Ok(BlockType::Data)
        } else {
            Err(StorageError::Corrupted)
        }
    }

    /// Decodes the header bytes of a block.
    pub fn from_bytes(bytes: &[u8]) -> (res: Result<BlockType, StorageError>)
        ensures
            res == Self::parse(bytes@),
    {
        if bytes.len() != 4 || bytes[1] != 0xFF || bytes[2] != 0xFF || bytes[3] != 0xFF {
            proof {
                let u = BlockType::Undefined.encoding();
                let m = BlockType::Metadata.encoding();
                let d = BlockType::Data.encoding();
                assert(u.len() == 4 && m.len() == 4 && d.len() == 4);
                assert(u[1] == 0xFF && u[2] == 0xFF && u[3] == 0xFF);
                assert(m[1] == 0xFF && m[2] == 0xFF && m[3] == 0xFF);
                assert(d[1] == 0xFF && d[2] == 0xFF && d[3] == 0xFF);
            }
            return Err(StorageError::Corrupted);
        }
        let tag = bytes[0];
        proof {
            assert(BlockType::Undefined.encoding()[0] == 0xFF);
            assert(BlockType::Metadata.encoding()[0] == 0x0F);
            assert(BlockType::Data.encoding()[0] == 0xF0);
        }
        if tag == 0xFF {
            assert(bytes@ =~= BlockType::Undefined.encoding());
            Ok(BlockType::Undefined)
        } else if tag == 0x0F {
            assert(bytes@ =~= BlockType::Metadata.encoding());
            Ok(BlockType::Metadata)
        } else if tag == 0xF0 {
            assert(bytes@ =~= BlockType::Data.encoding());
            Ok(BlockType::Data)
        } else {
            Err(StorageError::Corrupted)
        }
    }

    /// Every kind is read back from its own header bytes.
    pub proof fn lemma_parse_encoding(self)
        ensures
            Self::parse(self.encoding()) == Ok::<BlockType, StorageError>(self),
            self.encoding().len() == HEADER_BYTES,
    {
        assert(BlockType::Undefined.encoding()[0] == 0xFF);
        assert(BlockType::Metadata.encoding()[0] == 0x0F);
        assert(BlockType::Data.encoding()[0] == 0xF0);
    }
}

/// The header bytes of `block`.
pub open spec fn block_header(m: Contents, block: int) -> Seq<u8> {
    m[block].subrange(0, HEADER_BYTES as int)
}

/// What the engine remembers of a block: its kind, and the offset behind
/// its last object.
#[derive(Clone, Copy, PartialEq, Eq, Structural, Debug)]
pub struct BlockInfo {
    pub kind: BlockType,
    pub used: usize,
}

impl BlockInfo {
    pub open spec fn spec_is_metadata(&self) -> bool {
        self.kind == BlockType::Metadata
    }

    #[verifier::when_used_as_spec(spec_is_metadata)]
    pub fn is_metadata(&self) -> (b: bool)
        ensures
            b == (self.kind == BlockType::Metadata),
    {
        matches!(self.kind, BlockType::Metadata)
    }

    pub open spec fn spec_is_data(&self) -> bool {
        self.kind == BlockType::Data
    }

    #[verifier::when_used_as_spec(spec_is_data)]
    pub fn is_data(&self) -> (b: bool)
        ensures
            b == (self.kind == BlockType::Data),
    {
        matches!(self.kind, BlockType::Data)
    }

    pub open spec fn spec_is_undefined(&self) -> bool {
        self.kind == BlockType::Undefined
    }

    #[verifier::when_used_as_spec(spec_is_undefined)]
    pub fn is_undefined(&self) -> (b: bool)
        ensures
            b == (self.kind == BlockType::Undefined),
    {
        matches!(self.kind, BlockType::Undefined)
    }
}

/// The objects of one block as a scan meets them, with the block's kind.
pub struct BlockLayout {
    pub kind: BlockType,
    pub objects: Seq<ObjectInfo>,
}

/// Where object number `index` of a block starts: behind the block header,
/// or behind the object before it.
pub open spec fn start_of(g: Geometry, objects: Seq<ObjectInfo>, index: int) -> int {
    if index == 0 {
        HEADER_BYTES as int
    } else {
        objects[index - 1].end(g)
    }
}

/// The offset behind the last object of a block.
pub open spec fn end_of(g: Geometry, objects: Seq<ObjectInfo>) -> int {
    start_of(g, objects, objects.len() as int)
}

/// `layout` is what a scan of `block` finds: the header gives the kind, an
/// undefined block is taken to hold nothing, and in any other the objects
/// follow each other from behind the header to where the used part ends.
pub open spec fn block_laid_out(m: Contents, g: Geometry, block: int, layout: BlockLayout) -> bool {
    &&& BlockType::parse(block_header(m, block)) == Ok::<BlockType, StorageError>(layout.kind)
    &&& layout.kind == BlockType::Undefined ==> layout.objects.len() == 0
    &&& forall|i: int|
        0 <= i < layout.objects.len() ==> step_at(m, g, place_of(g, block, layout.objects, i))
            == Step::Object(#[trigger] layout.objects[i])
    &&& layout.kind != BlockType::Undefined ==> step_at(
        m,
        g,
        place_of(g, block, layout.objects, layout.objects.len() as int),
    ) == Step::End
}

/// The location at which object number `index` of `block` is looked for.
pub open spec fn place_of(g: Geometry, block: int, objects: Seq<ObjectInfo>, index: int) -> ObjectLocation {
    ObjectLocation { block: block as usize, offset: start_of(g, objects, index) as usize }
}

/// The offsets of a layout stay inside the block, on write units, and each
/// object starts where the one before it ends.
pub proof fn lemma_layout_bounds(m: Contents, g: Geometry, block: int, layout: BlockLayout, i: int)
    requires
        g.valid(),
        0 <= block < g.block_count,
        block_laid_out(m, g, block, layout),
        0 <= i <= layout.objects.len(),
    ensures
        HEADER_BYTES <= start_of(g, layout.objects, i) <= g.block_size,
        g.aligned(start_of(g, layout.objects, i)),
        i < layout.objects.len() ==> start_of(g, layout.objects, i) < layout.objects[i].end(g)
            <= g.block_size,
        i < layout.objects.len() ==> layout.objects[i].location == place_of(
            g,
            block,
            layout.objects,
            i,
        ),
        i < layout.objects.len() ==> header_fits(g, start_of(g, layout.objects, i)),
    decreases i,
{
    crate::medium::lemma_align(g, 0);
    if i > 0 {
        lemma_layout_bounds(m, g, block, layout, i - 1);
        let prev = layout.objects[i - 1];
        lemma_step_object(m, g, place_of(g, block, layout.objects, i - 1), prev);
        lemma_end_bounds(prev, g);
    }
    if i < layout.objects.len() {
        let this = layout.objects[i];
        lemma_step_object(m, g, place_of(g, block, layout.objects, i), this);
        lemma_end_bounds(this, g);
    }
}

/// A scan of `block` has met `objects`, one after the other.
pub open spec fn block_walked(m: Contents, g: Geometry, block: int, objects: Seq<ObjectInfo>) -> bool {
    forall|i: int|
        0 <= i < objects.len() ==> step_at(m, g, place_of(g, block, objects, i)) == Step::Object(
            #[trigger] objects[i],
        )
}

/// Two walks over one block are the same up to the end of the shorter.
pub proof fn lemma_walk_prefix(
    m: Contents,
    g: Geometry,
    block: int,
    a: Seq<ObjectInfo>,
    b: Seq<ObjectInfo>,
    i: int,
)
    requires
        block_walked(m, g, block, a),
        block_walked(m, g, block, b),
        0 <= i <= a.len(),
        i <= b.len(),
    ensures
        a.take(i) == b.take(i),
        start_of(g, a, i) == start_of(g, b, i),
    decreases i,
{
    if i > 0 {
        lemma_walk_prefix(m, g, block, a, b, i - 1);
        assert(step_at(m, g, place_of(g, block, a, i - 1)) == Step::Object(a[i - 1]));
        assert(step_at(m, g, place_of(g, block, b, i - 1)) == Step::Object(b[i - 1]));
        assert(a.take(i) =~= a.take(i - 1).push(a[i - 1]));
        assert(b.take(i) =~= b.take(i - 1).push(b[i - 1]));
    } else {
        assert(a.take(0) =~= b.take(0));
    }
}

/// Where a walk over a block comes to bytes that are no header, the block
/// has no layout.
pub proof fn lemma_walk_failed(
    m: Contents,
    g: Geometry,
    block: int,
    objects: Seq<ObjectInfo>,
    e: StorageError,
)
    requires
        block_walked(m, g, block, objects),
        step_at(m, g, place_of(g, block, objects, objects.len() as int)) == Step::Failed(e),
    ensures
        forall|layout: BlockLayout|
            layout.kind != BlockType::Undefined ==> !block_laid_out(m, g, block, layout),
{
    assert forall|layout: BlockLayout| layout.kind != BlockType::Undefined implies !block_laid_out(
        m,
        g,
        block,
        layout,
    ) by {
        if block_laid_out(m, g, block, layout) {
            let n = objects.len() as int;
            let k = layout.objects.len() as int;
            if k <= n {
                lemma_walk_prefix(m, g, block, layout.objects, objects, k);
                if k < n {
                    assert(step_at(m, g, place_of(g, block, objects, k)) == Step::Object(
                        objects[k],
                    ));
                }
            } else {
                lemma_walk_prefix(m, g, block, layout.objects, objects, n);
                assert(step_at(m, g, place_of(g, block, layout.objects, n)) == Step::Object(
                    layout.objects[n],
                ));
            }
        }
    }
}

/// `layout` is what a scan of the whole medium finds, block by block.
pub open spec fn laid_out(m: Contents, g: Geometry, layout: Seq<BlockLayout>) -> bool {
    &&& layout.len() == g.block_count
    &&& forall|b: int| 0 <= b < layout.len() ==> block_laid_out(m, g, b, #[trigger] layout[b])
}

/// A block fresh from formatting: erased, then given its kind.
pub open spec fn fresh_block(g: Geometry, kind: BlockType) -> Seq<u8> {
    programmed(blank(g.block_size as int), 0, kind.encoding())
}

/// The contents of a freshly formatted medium: the first `metadata_blocks`
/// blocks are metadata blocks, all others are erased.
pub open spec fn formatted(g: Geometry, metadata_blocks: int) -> Contents {
    Seq::new(
        g.block_count as nat,
        |b: int|
            if b < metadata_blocks {
                fresh_block(g, BlockType::Metadata)
            } else {
                blank(g.block_size as int)
            },
    )
}

/// Scans and formats blocks.
pub struct BlockOps;

impl BlockOps {
    /// Reads the header of `block` and walks over its objects. Besides what
    /// is remembered of the block, the objects that the walk met are given.
    pub(crate) fn scan_objects<M: StorageMedium>(medium: &mut M, block: usize) -> (res: Result<
        (BlockInfo, Ghost<Seq<ObjectInfo>>),
        StorageError,
    >)
        requires
            old(medium).inv(),
        ensures
            untouched(old(medium), final(medium)),
            match res {
                Ok((info, objects)) => block < old(medium).spec_geometry().block_count
                    && block_laid_out(
                    old(medium)@,
                    old(medium).spec_geometry(),
                    block as int,
                    BlockLayout { kind: info.kind, objects: objects@ },
                ) && info.used == end_of(old(medium).spec_geometry(), objects@),
                Err(e) => e == StorageError::Io || e == StorageError::Corrupted,
            },
            res == Err::<(BlockInfo, Ghost<Seq<ObjectInfo>>), StorageError>(StorageError::Io)
                ==> block >= old(medium).spec_geometry().block_count || !old(medium).reliable(),
            res == Err::<(BlockInfo, Ghost<Seq<ObjectInfo>>), StorageError>(
                StorageError::Corrupted,
            ) ==> forall|layout: BlockLayout|
                !block_laid_out(
                    old(medium)@,
                    old(medium).spec_geometry(),
                    block as int,
                    layout,
                ),
    {
        proof {
            medium.lemma_inv();
            crate::medium::lemma_align(medium.spec_geometry(), 0);
        }
        let g = medium.geometry();
        if block >= g.block_count {
            return Err(StorageError::Io);
        }
        let mut header: Vec<u8> = vec![0u8; HEADER_BYTES];
        match medium.read(block, 0, header.as_mut_slice()) {
            Ok(()) => {},
            Err(e) => {
                return Err(e);
            },
        }
        let kind = match BlockType::from_bytes(header.as_slice()) {
            Ok(kind) => kind,
            Err(e) => {
                return Err(e);
            },
        };
        if kind == BlockType::Undefined {
            return Ok((BlockInfo { kind, used: HEADER_BYTES }, Ghost(Seq::empty())));
        }
        let mut iter = ObjectIterator::new(block);
        let ghost mut objects: Seq<ObjectInfo> = Seq::empty();
        proof {
            crate::medium::lemma_align(g, 0);
        }
        loop
            invariant_except_break
                untouched(old(medium), medium),
                medium.inv(),
                g == medium.spec_geometry(),
                g.valid(),
                block < g.block_count,
                kind != BlockType::Undefined,
                BlockType::parse(block_header(medium@, block as int)) == Ok::<
                    BlockType,
                    StorageError,
                >(kind),
                iter.location() == place_of(g, block as int, objects, objects.len() as int),
                iter.location().offset == start_of(g, objects, objects.len() as int),
                HEADER_BYTES <= iter.location().offset <= g.block_size,
                g.aligned(iter.location().offset as int),
                forall|i: int|
                    0 <= i < objects.len() ==> step_at(
                        medium@,
                        g,
                        place_of(g, block as int, objects, i),
                    ) == Step::Object(#[trigger] objects[i]),
            ensures
                untouched(old(medium), medium),
                iter.location() == place_of(g, block as int, objects, objects.len() as int),
                iter.location().offset == start_of(g, objects, objects.len() as int),
                forall|i: int|
                    0 <= i < objects.len() ==> step_at(
                        medium@,
                        g,
                        place_of(g, block as int, objects, i),
                    ) == Step::Object(#[trigger] objects[i]),
                step_at(medium@, g, place_of(g, block as int, objects, objects.len() as int))
                    == Step::End,
            decreases g.block_size - iter.location().offset,
        {
            let ghost before = objects;
            match iter.next(medium) {
                Err(e) => {
                    proof {
                        crate::ll::objects::lemma_header_errors(medium@, g, iter.location());
                        if e == StorageError::Corrupted {
                            if medium.reliable() {
                            }
                            if step_at(
                                medium@,
                                g,
                                place_of(g, block as int, objects, objects.len() as int),
                            ) == Step::Failed(e) {
                                lemma_walk_failed(medium@, g, block as int, objects, e);
                            }
                        }
                    }
                    return Err(e);
                },
                Ok(None) => {
                    break ;
                },
                Ok(Some(info)) => {
                    proof {
                        lemma_step_object(
                            medium@,
                            g,
                            place_of(g, block as int, before, before.len() as int),
                            info,
                        );
                        lemma_end_bounds(info, g);
                        objects = before.push(info);
                        assert forall|i: int| 0 <= i < objects.len() implies step_at(
                            medium@,
                            g,
                            place_of(g, block as int, objects, i),
                        ) == Step::Object(#[trigger] objects[i]) by {
                            if i < before.len() {
                                assert(objects[i] == before[i]);
                                assert(start_of(g, objects, i) == start_of(g, before, i));
                            }
                        }
                    }
                },
            }
        }
        Ok((BlockInfo { kind, used: iter.current_offset() }, Ghost(objects)))
    }

    /// Reads the header of `block` and walks over its objects, up to the end
    /// of the used part.
    pub fn scan_block<M: StorageMedium>(medium: &mut M, block: usize) -> (res: Result<
        BlockInfo,
        StorageError,
    >)
        requires
            old(medium).inv(),
        ensures
            untouched(old(medium), final(medium)),
            match res {
                Ok(info) => block < old(medium).spec_geometry().block_count && exists|
                    objects: Seq<ObjectInfo>,
                |
                    block_laid_out(
                        old(medium)@,
                        old(medium).spec_geometry(),
                        block as int,
                        BlockLayout { kind: info.kind, objects },
                    ) && info.used == end_of(old(medium).spec_geometry(), objects),
                Err(e) => e == StorageError::Io || e == StorageError::Corrupted,
            },
            res == Err::<BlockInfo, StorageError>(StorageError::Io) ==> block >= old(
                medium,
            ).spec_geometry().block_count || !old(medium).reliable(),
            res == Err::<BlockInfo, StorageError>(StorageError::Corrupted) ==> forall|
                layout: BlockLayout,
            |
                !block_laid_out(
                    old(medium)@,
                    old(medium).spec_geometry(),
                    block as int,
                    layout,
                ),
    {
        match Self::scan_objects(medium, block) {
            Ok((info, _)) => Ok(info),
            Err(e) => Err(e),
        }
    }

    /// Erases every block and makes the first `metadata_blocks` of them
    /// metadata blocks. What the medium held is lost.
    pub fn format_storage<M: StorageMedium>(medium: &mut M, metadata_blocks: usize) -> (res: Result<
        (),
        StorageError,
    >)
        requires
            old(medium).inv(),
        ensures
            final(medium).inv(),
            final(medium).spec_geometry() == old(medium).spec_geometry(),
            final(medium).reliable() == old(medium).reliable(),
            metadata_blocks > old(medium).spec_geometry().block_count ==> res == Err::<
                (),
                StorageError,
            >(StorageError::InsufficientSpace) && untouched(old(medium), final(medium)),
            metadata_blocks <= old(medium).spec_geometry().block_count ==> (res is Err ==> res
                == Err::<(), StorageError>(StorageError::Io) && !old(medium).reliable()),
            res is Ok ==> final(medium)@ == formatted(
                old(medium).spec_geometry(),
                metadata_blocks as int,
            ),
    {
        proof {
            medium.lemma_inv();
            crate::medium::lemma_align(medium.spec_geometry(), 0);
        }
        let g = medium.geometry();
        if metadata_blocks > g.block_count {
            return Err(StorageError::InsufficientSpace);
        }
        let mut b: usize = 0;
        while b < g.block_count
            invariant
                b <= g.block_count,
                metadata_blocks <= g.block_count,
                medium.inv(),
                medium.spec_geometry() == g,
                g == old(medium).spec_geometry(),
                medium.reliable() == old(medium).reliable(),
                medium@.len() == g.block_count,
                forall|k: int| 0 <= k < b ==> #[trigger] medium@[k] == blank(g.block_size as int),
            decreases g.block_count - b,
        {
            proof {
                medium.lemma_inv();
                crate::medium::lemma_align(medium.spec_geometry(), 0);
            }
            match medium.erase(b) {
                Ok(()) => {},
                Err(e) => {
                    return Err(e);
                },
            }
            b += 1;
        }
        let header = BlockType::Metadata.into_bytes();
        let mut k: usize = 0;
        while k < metadata_blocks
            invariant
                k <= metadata_blocks <= g.block_count,
                medium.inv(),
                medium.spec_geometry() == g,
                g == old(medium).spec_geometry(),
                g.valid(),
                medium.reliable() == old(medium).reliable(),
                medium@.len() == g.block_count,
                header@ == BlockType::Metadata.encoding(),
                forall|j: int| 0 <= j < k ==> #[trigger] medium@[j] == fresh_block(g, BlockType::Metadata),
                forall|j: int|
                    k <= j < g.block_count ==> #[trigger] medium@[j] == blank(g.block_size as int),
            decreases metadata_blocks - k,
        {
            proof {
                medium.lemma_inv();
                crate::medium::lemma_align(medium.spec_geometry(), 0);
                crate::medium::lemma_align(g, 0);
            }
            match medium.write(k, 0, &header) {
                Ok(()) => {},
                Err(e) => {
                    return Err(e);
                },
            }
            k += 1;
        }
        assert(medium@ =~= formatted(g, metadata_blocks as int));
        Ok(())
    }
}

} // verus!
