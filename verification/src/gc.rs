//! Reclaiming blocks.

use vstd::prelude::*;

use crate::{max_hops, Storage, StorageError};
use crate::ll::blocks::BlockType;
use crate::medium::{blank, StorageMedium};
use crate::model::scanned_before;
use crate::model::erase::{candidate, in_use, is_victim};
use crate::model::marks::{first_tenant, is_tenant, lemma_position, position};
use crate::model::room::{lemma_spares_bound, spares};
use crate::model::state::is_entry;
use crate::model::steps::{crash_safe, lemma_safe_join, lemma_safe_none};

verus! {

impl<M: StorageMedium> Storage<M> {
    /// The block is erased and free to be given a kind again.
    pub open spec fn cleared(&self, block: int) -> bool {
        &&& 0 <= block < self.blocks().len()
        &&& self.blocks()[block].kind == BlockType::Undefined
        &&& self.medium()@[block] == blank(self.medium().spec_geometry().block_size as int)
    }

    /// A block that was cleared is free again: it counts among the
    /// undefined blocks, which give room to what is stored next.
    pub proof fn lemma_cleared_is_spare(&self, block: int)
        requires
            self.cleared(block),
        ensures
            spares(self.blocks(), self.blocks().len() as int) >= 1,
    {
        lemma_spares_bound(self.blocks(), self.blocks().len() as int, block);
    }

    /// Erases `block`, and no other block, if nothing in it is in use: if it
    /// holds no entry and
    /// no object of a file that has an entry. Tells whether the block was
    /// erased. The files are what they were, also where power is lost on
    /// the way.
    pub fn reclaim(&mut self, block: usize) -> (res: Result<bool, StorageError>)
        requires
            old(self).wf(),
        ensures
            final(self).went_on(old(self)),
            final(self).medium().erased() == old(self).medium().erased() + (if res
                == Ok::<bool, StorageError>(true) {
                1nat
            } else {
                0nat
            }),
            old(self).consistent() ==> {
                &&& final(self).consistent()
                &&& final(self).files() == old(self).files()
                &&& crash_safe(
                    final(self).medium().trace(),
                    old(self).medium().trace().len() as int,
                    old(self).medium().spec_geometry(),
                    old(self).files(),
                    old(self).files(),
                )
                &&& match res {
                    Ok(done) => done == (block < old(self).medium().spec_geometry().block_count
                        && !in_use(old(self).model(), block as int)) && (done ==> final(self).cleared(block as int)),
                    Err(e) => e == StorageError::Io && !old(self).medium().reliable(),
                }
            },
    {
        proof {
            self.lemma_quiet_none();
        }
        if block >= self.block_count() {
            return Ok(false);
        }
        let found = self.tenant(block);
        proof {
            self.lemma_unchanged(old(self));
        }
        match found {
            Ok(Some(_)) => Ok(false),
            Ok(None) => match self.erase_block(block) {
                Ok(()) => Ok(true),
                Err(e) => Err(e),
            },
            Err(e) => Err(e),
        }
    }

    /// The first file in the way of clearing `block` has no room outside
    /// it: of the entries that keep the block in use, the first that a scan
    /// meets is that of a file for whose objects the other blocks have no
    /// room.
    pub open spec fn no_room_to_clear(&self, block: usize) -> bool {
        exists|b: int, i: int| #[trigger]
            first_tenant(self.model(), block as int, b, i) && {
                let r = self.model().records[self.model().layout[b].objects[i].location];
                &&& r.live
                &&& self.files().dom().contains(r.name)
                &&& self.room_for(Some(block), r.name, self.files()[r.name]) is None
            }
    }

    /// Clears `block`: every file that has an object in the block is
    /// stored again outside it, every entry in the block is taken away, and
    /// the block is erased at the end, when nothing in it is in use any
    /// more. The files are taken in the order in which a scan meets their
    /// entries. Where the blocks outside have no room for one of them, the
    /// work ends there for want of room, with the files before it stored
    /// outside the block already; else the block is erased. Tells whether
    /// `block` is a block of the medium. The files are what they were, also
    /// where power is lost on the way or the room is wanting.
    pub fn collect(&mut self, block: usize) -> (res: Result<bool, StorageError>)
        requires
            old(self).wf(),
        ensures
            final(self).went_on(old(self)),
            final(self).medium().erased() == old(self).medium().erased() + (if res
                == Ok::<bool, StorageError>(true) {
                1nat
            } else {
                0nat
            }),
            old(self).consistent() ==> {
                &&& final(self).consistent()
                &&& final(self).files() == old(self).files()
                &&& crash_safe(
                    final(self).medium().trace(),
                    old(self).medium().trace().len() as int,
                    old(self).medium().spec_geometry(),
                    old(self).files(),
                    old(self).files(),
                )
                &&& match res {
                    Ok(done) => done == (block < old(self).medium().spec_geometry().block_count)
                        && (done ==> final(self).cleared(block as int) && !in_use(
                        final(self).model(),
                        block as int,
                    )) && (!done ==> final(self).unchanged(old(self))),
                    Err(e) => (e == StorageError::InsufficientSpace && block < old(self).medium().spec_geometry().block_count
                        && final(self).no_room_to_clear(block)) || (e == StorageError::Io
                        && !old(self).medium().reliable()),
                }
            },
    {
        let ghost ok = self.consistent();
        let ghost g = self.medium().spec_geometry();
        let ghost t0 = self.medium().trace();
        let ghost f0 = self.files();
        let ghost v = block as int;
        proof {
            self.lemma_quiet_none();
            assert(t0.take(t0.len() as int) =~= t0);
            if ok {
                lemma_safe_none(t0, g, f0, f0);
                self.lemma_layout_facts();
            }
        }
        if block >= self.block_count() {
            return Ok(false);
        }
        let geometry = self.geometry();
        let mut fuel = max_hops(&geometry) + geometry.block_count as u64;
        let ghost mut from: (int, int) = (0, 0);
        proof {
            assert(fuel == g.block_count * (g.block_size + 1)) by (nonlinear_arith)
                requires
                    fuel == g.block_count * g.block_size + g.block_count,
            ;
        }
        loop
            invariant
                old(self).wf(),
                self.went_on(old(self)),
                self.medium().erased() == old(self).medium().erased(),
                block < self.blocks().len(),
                v == block,
                ok == old(self).consistent(),
                g == old(self).medium().spec_geometry(),
                t0 == old(self).medium().trace(),
                f0 == old(self).files(),
                ok ==> (self.consistent() && self.files() == f0 && crash_safe(
                    self.medium().trace(),
                    t0.len() as int,
                    g,
                    f0,
                    f0,
                )),
                0 <= from.0,
                0 <= from.1 <= g.block_size,
                ok ==> fuel + position(g, from.0, from.1) >= g.block_count * (g.block_size + 1),
                ok ==> forall|b2: int, i2: int|
                    scanned_before(b2, i2, from.0, from.1) ==> !#[trigger] is_tenant(
                        self.model(),
                        v,
                        b2,
                        i2,
                    ),
            decreases fuel,
        {
            let ghost s1 = *self;
            let found = self.tenant(block);
            proof {
                self.lemma_unchanged(&s1);
                assert(self.medium().trace().take(s1.medium().trace().len() as int)
                    =~= s1.medium().trace());
                self.lemma_went_twice(&s1, old(self));
            }
            let info = match found {
                Ok(Some((info, at))) => (info, at),
                Ok(None) => {
                    let ghost s2 = *self;
                    let res = self.erase_block(block);
                    proof {
                        self.lemma_went_twice(&s2, old(self));
                        if ok {
                            lemma_safe_join(
                                s2.medium().trace(),
                                self.medium().trace(),
                                t0.len() as int,
                                g,
                                f0,
                                f0,
                                f0,
                                f0,
                            );
                        }
                    }
                    return match res {
                        Ok(()) => Ok(true),
                        Err(e) => Err(e),
                    };
                },
                Err(e) => {
                    return Err(e);
                },
            };
            let ghost at = info.1@;
            proof {
                if ok {
                    self.lemma_layout_facts();
                    self.lemma_entry_index(at.0, at.1);
                    assert(is_tenant(self.model(), v, at.0, at.1));
                    lemma_position(g, from.0, from.1, at.0, at.1);
                }
            }
            if fuel == 0 {
                return Err(StorageError::Corrupted);
            }
            fuel = fuel - 1;
            let ghost s2 = *self;
            let res = self.evict(info.0, Some(block), Ghost(at.0), Ghost(at.1));
            proof {
                self.lemma_went_twice(&s2, old(self));
                if ok {
                    lemma_safe_join(
                        s2.medium().trace(),
                        self.medium().trace(),
                        t0.len() as int,
                        g,
                        f0,
                        f0,
                        f0,
                        f0,
                    );
                    if res is Ok {
                        assert forall|b2: int, i2: int|
                            scanned_before(b2, i2, at.0, at.1 + 1) implies !#[trigger] is_tenant(
                            self.model(),
                            v,
                            b2,
                            i2,
                        ) by {
                            if is_tenant(self.model(), v, b2, i2) {
                                assert(is_entry(self.model().layout, b2, i2));
                                assert(is_tenant(s2.model(), v, b2, i2));
                                if !(b2 == at.0 && i2 == at.1) {
                                    assert(scanned_before(b2, i2, at.0, at.1));
                                }
                            }
                        }
                        from = (at.0, at.1 + 1);
                    } else if res is Err && res->Err_0 == StorageError::InsufficientSpace {
                        self.lemma_unchanged(&s2);
                    }
                }
            }
            match res {
                Ok(()) => {},
                Err(e) => {
                    return Err(e);
                },
            }
        }
    }

    /// Clears the block that `pick_victim` picks, and returns its number;
    /// `None` where nothing was put into any block. The files are what they
    /// were, also where power is lost on the way or the medium has no room
    /// for the copies.
    pub fn collect_garbage(&mut self) -> (res: Result<Option<usize>, StorageError>)
        requires
            old(self).wf(),
        ensures
            final(self).went_on(old(self)),
            final(self).medium().erased() == old(self).medium().erased() + (if res is Ok
                && res->Ok_0 is Some {
                1nat
            } else {
                0nat
            }),
            old(self).consistent() ==> {
                &&& final(self).consistent()
                &&& final(self).files() == old(self).files()
                &&& crash_safe(
                    final(self).medium().trace(),
                    old(self).medium().trace().len() as int,
                    old(self).medium().spec_geometry(),
                    old(self).files(),
                    old(self).files(),
                )
                &&& match res {
                    Ok(Some(victim)) => is_victim(
                        old(self).blocks(),
                        old(self).medium().spec_geometry(),
                        old(self).model().layout,
                        victim as int,
                    ) && final(self).cleared(victim as int),
                    Ok(None) => (forall|b: int| !candidate(old(self).blocks(), b)) && final(self).unchanged(
                        old(self),
                    ),
                    Err(e) => (e == StorageError::InsufficientSpace && exists|victim: usize|
                        is_victim(
                            old(self).blocks(),
                            old(self).medium().spec_geometry(),
                            old(self).model().layout,
                            victim as int,
                        ) && #[trigger] final(self).no_room_to_clear(victim)) || (e
                        == StorageError::Io && !old(self).medium().reliable()),
                }
            },
    {
        let ghost ok = self.consistent();
        let ghost g = self.medium().spec_geometry();
        let ghost t0 = self.medium().trace();
        let ghost f0 = self.files();
        let picked = self.pick_victim();
        let ghost s1 = *self;
        proof {
            self.lemma_unchanged(old(self));
            self.lemma_quiet_none();
            assert(t0.take(t0.len() as int) =~= t0);
            if ok {
                lemma_safe_none(t0, g, f0, f0);
            }
        }
        let victim = match picked {
            Ok(Some(victim)) => victim,
            Ok(None) => {
                return Ok(None);
            },
            Err(e) => {
                return Err(e);
            },
        };
        let res = self.collect(victim);
        proof {
            self.lemma_went_twice(&s1, old(self));
        }
        match res {
            Ok(true) => Ok(Some(victim)),
            Ok(false) => Ok(None),
            Err(e) => Err(e),
        }
    }
}

} // verus!
