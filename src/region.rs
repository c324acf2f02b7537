//! Region lifecycle: clean regions wait to be written, the region being
//! written, dirty regions wait to be evicted, and an evicted region becomes
//! clean again once the catalog no longer points into it.

use vstd::prelude::*;

use crate::catalog::Catalog;

verus! {

#[derive(Debug, Clone, Copy, PartialEq, Eq, Structural)]
pub enum Phase {
    Clean,
    Writing,
    Dirty,
    Evicting,
}

/// Tracks the phase and pin count of every region, the queue of clean
/// regions and the eviction queue (oldest dirty region first).
#[derive(Debug)]
pub struct RegionManager {
    phases: Vec<Phase>,
    pins: Vec<u32>,
    clean: Vec<u32>,
    dirty: Vec<u32>,
}

/// A change of pin counts alone that leaves evicting regions unpinned keeps
/// the manager well formed.
proof fn lemma_pins_only(pre: RegionManager, post: RegionManager)
    requires
        pre.wf(),
        post.phases@ == pre.phases@,
        post.clean@ == pre.clean@,
        post.dirty@ == pre.dirty@,
        post.pins@.len() == pre.pins@.len(),
        forall|x: u32| x < post.spec_regions() && post.phase(x) == Phase::Evicting ==> #[trigger] post.pins_of(x) == 0,
    ensures
        post.wf(),
{
    assert forall|x: u32| x < post.spec_regions() implies {
        &&& (post.phase(x) == Phase::Clean <==> post.spec_clean().contains(x))
        &&& (post.phase(x) == Phase::Dirty <==> post.spec_dirty().contains(x))
        &&& (post.phase(x) == Phase::Evicting ==> post.pins_of(x) == 0)
    } by {
        assert(pre.phase(x) == pre.phase(x));
        assert(post.phase(x) == pre.phase(x));
        assert(post.spec_clean() == pre.spec_clean());
        assert(post.spec_dirty() == pre.spec_dirty());
    }
    assert forall|a: u32, b: u32|
        a < post.spec_regions() && b < post.spec_regions() && #[trigger] post.phase(a) == Phase::Writing
            && #[trigger] post.phase(b) == Phase::Writing implies a == b by {
        assert(post.phase(a) == pre.phase(a));
        assert(post.phase(b) == pre.phase(b));
    }
}

impl RegionManager {
    pub closed spec fn spec_phases(&self) -> Seq<Phase> {
        self.phases@
    }

    pub closed spec fn spec_pins(&self) -> Seq<u32> {
        self.pins@
    }

    /// Clean regions, in the order they will be handed out.
    pub closed spec fn spec_clean(&self) -> Seq<u32> {
        self.clean@
    }

    /// Dirty regions, in the order they will be evicted.
    pub closed spec fn spec_dirty(&self) -> Seq<u32> {
        self.dirty@
    }

    pub open spec fn spec_regions(&self) -> nat {
        self.spec_phases().len()
    }

    pub open spec fn phase(&self, id: u32) -> Phase {
        self.spec_phases()[id as int]
    }

    pub open spec fn pins_of(&self, id: u32) -> u32 {
        self.spec_pins()[id as int]
    }

    pub open spec fn wf(&self) -> bool {
        &&& self.spec_pins().len() == self.spec_regions()
        &&& self.spec_regions() <= u32::MAX
        &&& self.spec_clean().no_duplicates()
        &&& self.spec_dirty().no_duplicates()
        &&& forall|id: u32|
            #![trigger self.phase(id)]
            id < self.spec_regions() ==> {
                &&& (self.phase(id) == Phase::Clean <==> self.spec_clean().contains(id))
                &&& (self.phase(id) == Phase::Dirty <==> self.spec_dirty().contains(id))
                &&& (self.phase(id) == Phase::Evicting ==> self.pins_of(id) == 0)
            }
        &&& forall|i: int|
            0 <= i < self.spec_clean().len() ==> #[trigger] self.spec_clean()[i] < self.spec_regions()
        &&& forall|i: int|
            0 <= i < self.spec_dirty().len() ==> #[trigger] self.spec_dirty()[i] < self.spec_regions()
        &&& forall|a: u32, b: u32|
            #![trigger self.phase(a), self.phase(b)]
            a < self.spec_regions() && b < self.spec_regions() && self.phase(a) == Phase::Writing
                && self.phase(b) == Phase::Writing ==> a == b
    }

    /// No region is being written.
    pub open spec fn none_writing(&self) -> bool {
        forall|id: u32| id < self.spec_regions() ==> #[trigger] self.phase(id) != Phase::Writing
    }

    /// `regions` regions, all clean and unpinned, handed out in id order.
    pub fn new(regions: u32) -> (r: Self)
        ensures
            r.wf(),
            r.spec_regions() == regions,
            r.none_writing(),
            r.spec_dirty().len() == 0,
            r.spec_clean() == Seq::new(regions as nat, |i: int| i as u32),
            forall|id: u32| id < regions ==> #[trigger] r.pins_of(id) == 0,
    {
        let mut phases: Vec<Phase> = Vec::new();
        let mut pins: Vec<u32> = Vec::new();
        let mut clean: Vec<u32> = Vec::new();
        let mut i: u32 = 0;
        while i < regions
            invariant
                i <= regions,
                phases@ == Seq::new(i as nat, |j: int| Phase::Clean),
                pins@ == Seq::new(i as nat, |j: int| 0u32),
                clean@ == Seq::new(i as nat, |j: int| j as u32),
            decreases regions - i,
        {
            phases.push(Phase::Clean);
            pins.push(0);
            clean.push(i);
            i = i + 1;
            proof {
                assert(phases@ =~= Seq::new(i as nat, |j: int| Phase::Clean));
                assert(pins@ =~= Seq::new(i as nat, |j: int| 0u32));
                assert(clean@ =~= Seq::new(i as nat, |j: int| j as u32));
            }
        }
        let r = RegionManager { phases, pins, clean, dirty: Vec::new() };
        assert forall|id: u32| id < r.spec_regions() implies
            (r.phase(id) == Phase::Clean <==> r.spec_clean().contains(id)) by {
            assert(r.spec_clean()[id as int] == id);
        }
        r
    }

    /// The phase of region `id`.
    pub fn phase_of(&self, id: u32) -> (r: Phase)
        requires
            self.wf(),
            id < self.spec_regions(),
        ensures
            r == self.phase(id),
    {
        self.phases[id as usize]
    }

    /// The number of clean regions waiting to be handed out.
    pub fn clean_count(&self) -> (r: usize)
        ensures
            r == self.spec_clean().len(),
    {
        self.clean.len()
    }

    /// Hands out the oldest clean region for writing, if there is one.
    pub fn acquire(&mut self) -> (r: Option<u32>)
        requires
            old(self).wf(),
            old(self).none_writing(),
        ensures
            final(self).wf(),
            final(self).spec_regions() == old(self).spec_regions(),
            final(self).spec_pins() == old(self).spec_pins(),
            final(self).spec_dirty() == old(self).spec_dirty(),
            old(self).spec_clean().len() == 0 ==> r is None && *final(self) == *old(self),
            old(self).spec_clean().len() > 0 ==> {
                &&& r == Some(old(self).spec_clean()[0])
                &&& final(self).spec_clean() == old(self).spec_clean().drop_first()
                &&& final(self).spec_phases() == old(self).spec_phases().update(
                    old(self).spec_clean()[0] as int,
                    Phase::Writing,
                )
            },
    {
        if self.clean.len() == 0 {
            return None;
        }
        let ghost pre = *self;
        let id = self.clean.remove(0);
        self.phases.set(id as usize, Phase::Writing);
        proof {
            assert(self.phases@ == pre.phases@.update(id as int, Phase::Writing));
            assert(pre.spec_clean()[0] < pre.spec_regions());
            assert(self.clean@ =~= pre.clean@.drop_first());
            assert(pre.clean@ =~= seq![id] + self.clean@);
            assert forall|x: u32| x < self.spec_regions() implies {
                &&& (self.phase(x) == Phase::Clean <==> self.spec_clean().contains(x))
                &&& (self.phase(x) == Phase::Dirty <==> self.spec_dirty().contains(x))
                &&& (self.phase(x) == Phase::Evicting ==> self.pins_of(x) == 0)
            } by {
                assert(pre.phase(x) == pre.phase(x));
                if x != id {
                    assert(self.phase(x) == pre.phase(x));
                    assert(pre.spec_clean().contains(x) ==> self.spec_clean().contains(x)) by {
                        if pre.spec_clean().contains(x) {
                            let k = choose|k: int| 0 <= k < pre.clean@.len() && pre.clean@[k] == x;
                            assert(self.clean@[k - 1] == x);
                        }
                    }
                    assert(self.spec_clean().contains(x) ==> pre.spec_clean().contains(x)) by {
                        if self.spec_clean().contains(x) {
                            let k = choose|k: int| 0 <= k < self.clean@.len() && self.clean@[k] == x;
                            assert(pre.clean@[k + 1] == x);
                        }
                    }
                } else {
                    assert(!self.spec_clean().contains(x)) by {
                        if self.spec_clean().contains(x) {
                            let k = choose|k: int| 0 <= k < self.clean@.len() && self.clean@[k] == x;
                            assert(pre.clean@[k + 1] == x);
                        }
                    }
                }
            }
            assert forall|i: int| 0 <= i < self.spec_clean().len() implies #[trigger] self.spec_clean()[i]
                < self.spec_regions() by {
                assert(pre.spec_clean()[i + 1] < pre.spec_regions());
            }
            assert forall|a: u32, b: u32|
                a < self.spec_regions() && b < self.spec_regions() && #[trigger] self.phase(a) == Phase::Writing
                    && #[trigger] self.phase(b) == Phase::Writing implies a == b by {
                assert(pre.phase(a) != Phase::Writing);
                assert(pre.phase(b) != Phase::Writing);
            }
        }
        Some(id)
    }

    /// Hands the region that was being written to the eviction queue. Call it
    /// only once the region's final flush has succeeded.
    pub fn eviction_push(&mut self, id: u32)
        requires
            old(self).wf(),
            id < old(self).spec_regions(),
            old(self).phase(id) == Phase::Writing,
        ensures
            final(self).wf(),
            final(self).none_writing(),
            final(self).spec_regions() == old(self).spec_regions(),
            final(self).spec_pins() == old(self).spec_pins(),
            final(self).spec_clean() == old(self).spec_clean(),
            final(self).spec_dirty() == old(self).spec_dirty().push(id),
            final(self).spec_phases() == old(self).spec_phases().update(id as int, Phase::Dirty),
    {
        let ghost pre = *self;
        proof {
            assert(!pre.spec_dirty().contains(id));
        }
        self.phases.set(id as usize, Phase::Dirty);
        self.dirty.push(id);
        proof {
            assert(self.phases@ == pre.phases@.update(id as int, Phase::Dirty));
            assert(self.dirty@ == pre.dirty@.push(id));
            assert forall|x: u32| x < self.spec_regions() implies {
                &&& (self.phase(x) == Phase::Clean <==> self.spec_clean().contains(x))
                &&& (self.phase(x) == Phase::Dirty <==> self.spec_dirty().contains(x))
                &&& (self.phase(x) == Phase::Evicting ==> self.pins_of(x) == 0)
            } by {
                assert(pre.phase(x) == pre.phase(x));
                assert(pre.phase(id) == pre.phase(id));
                assert(self.spec_clean() == pre.spec_clean());
                assert(self.spec_pins() == pre.spec_pins());
                assert(self.dirty@[self.dirty@.len() - 1] == id);
                if x != id {
                    assert(self.phase(x) == pre.phase(x));
                    assert(self.spec_dirty().contains(x) ==> pre.spec_dirty().contains(x)) by {
                        if self.spec_dirty().contains(x) {
                            let k = choose|k: int| 0 <= k < self.dirty@.len() && self.dirty@[k] == x;
                            assert(pre.dirty@[k] == x);
                        }
                    }
                    assert(pre.spec_dirty().contains(x) ==> self.spec_dirty().contains(x)) by {
                        if pre.spec_dirty().contains(x) {
                            let k = choose|k: int| 0 <= k < pre.dirty@.len() && pre.dirty@[k] == x;
                            assert(self.dirty@[k] == x);
                        }
                    }
                }
            }
            assert forall|i: int| 0 <= i < self.spec_dirty().len() implies #[trigger] self.spec_dirty()[i]
                < self.spec_regions() by {
                if i < pre.dirty@.len() {
                    assert(pre.spec_dirty()[i] < pre.spec_regions());
                }
            }
            assert forall|x: u32| x < self.spec_regions() implies #[trigger] self.phase(x) != Phase::Writing by {
                if x != id {
                    assert(pre.phase(x) == Phase::Writing ==> x == id);
                }
            }
        }
    }

    /// Pins region `id` for a read, so that it is not evicted meanwhile.
    /// Refused for a region being evicted (the read is then a miss) and when
    /// the pin count is at its maximum.
    pub fn pin(&mut self, id: u32) -> (r: bool)
        requires
            old(self).wf(),
            id < old(self).spec_regions(),
        ensures
            final(self).wf(),
            r == (old(self).phase(id) != Phase::Evicting && old(self).pins_of(id) < u32::MAX),
            final(self).spec_phases() == old(self).spec_phases(),
            final(self).spec_clean() == old(self).spec_clean(),
            final(self).spec_dirty() == old(self).spec_dirty(),
            r ==> final(self).spec_pins() == old(self).spec_pins().update(id as int, (old(self).pins_of(id) + 1) as u32),
            !r ==> final(self).spec_pins() == old(self).spec_pins(),
    {
        let ghost pre = *self;
        let p = self.pins[id as usize];
        if self.phases[id as usize] == Phase::Evicting || p == u32::MAX {
            return false;
        }
        self.pins.set(id as usize, p + 1);
        proof {
            assert forall|x: u32| x < self.spec_regions() && self.phase(x) == Phase::Evicting implies
                #[trigger] self.pins_of(x) == 0 by {
                assert(self.phase(x) == pre.phase(x));
                assert(self.spec_pins() == pre.spec_pins().update(id as int, (p + 1) as u32));
            }
            lemma_pins_only(pre, *self);
        }
        true
    }

    /// Ends a read of region `id`.
    pub fn unpin(&mut self, id: u32)
        requires
            old(self).wf(),
            id < old(self).spec_regions(),
            old(self).pins_of(id) > 0,
        ensures
            final(self).wf(),
            final(self).spec_phases() == old(self).spec_phases(),
            final(self).spec_clean() == old(self).spec_clean(),
            final(self).spec_dirty() == old(self).spec_dirty(),
            final(self).spec_pins() == old(self).spec_pins().update(id as int, (old(self).pins_of(id) - 1) as u32),
    {
        let ghost pre = *self;
        let p = self.pins[id as usize];
        self.pins.set(id as usize, p - 1);
        proof {
            assert forall|x: u32| x < self.spec_regions() && self.phase(x) == Phase::Evicting implies
                #[trigger] self.pins_of(x) == 0 by {
                assert(self.phase(x) == pre.phase(x));
                assert(pre.phase(id) == pre.phase(id));
                assert(self.spec_pins() == pre.spec_pins().update(id as int, (p - 1) as u32));
            }
            lemma_pins_only(pre, *self);
        }
    }

    /// Takes the oldest dirty region for eviction, unless there is none or
    /// a reader still pins it; the evictor then waits and tries again.
    pub fn begin_eviction(&mut self) -> (r: Option<u32>)
        requires
            old(self).wf(),
        ensures
            final(self).wf(),
            (old(self).spec_dirty().len() == 0 || old(self).pins_of(old(self).spec_dirty()[0]) > 0)
                ==> r is None && *final(self) == *old(self),
            (old(self).spec_dirty().len() > 0 && old(self).pins_of(old(self).spec_dirty()[0]) == 0)
                ==> {
                &&& r == Some(old(self).spec_dirty()[0])
                &&& final(self).spec_dirty() == old(self).spec_dirty().drop_first()
                &&& final(self).spec_phases() == old(self).spec_phases().update(
                    old(self).spec_dirty()[0] as int,
                    Phase::Evicting,
                )
                &&& final(self).spec_clean() == old(self).spec_clean()
                &&& final(self).spec_pins() == old(self).spec_pins()
            },
            r matches Some(id) ==> old(self).pins_of(id) == 0,
    {
        if self.dirty.len() == 0 {
            return None;
        }
        let id = self.dirty[0];
        proof {
            assert(self.spec_dirty()[0] < self.spec_regions());
        }
        if self.pins[id as usize] > 0 {
            return None;
        }
        let ghost pre = *self;
        self.dirty.remove(0);
        self.phases.set(id as usize, Phase::Evicting);
        proof {
            assert(self.spec_phases() == pre.spec_phases().update(id as int, Phase::Evicting));
            assert(self.spec_dirty() =~= pre.spec_dirty().drop_first());
            assert(pre.spec_dirty() =~= seq![id] + self.spec_dirty());
            assert(self.spec_clean() == pre.spec_clean());
            assert(self.spec_pins() == pre.spec_pins());
            assert forall|x: u32| x < self.spec_regions() implies {
                &&& (self.phase(x) == Phase::Clean <==> self.spec_clean().contains(x))
                &&& (self.phase(x) == Phase::Dirty <==> self.spec_dirty().contains(x))
                &&& (self.phase(x) == Phase::Evicting ==> self.pins_of(x) == 0)
            } by {
                assert(pre.phase(x) == pre.phase(x));
                assert(pre.phase(id) == pre.phase(id));
                if x != id {
                    assert(self.phase(x) == pre.phase(x));
                    assert(pre.spec_dirty().contains(x) ==> self.spec_dirty().contains(x)) by {
                        if pre.spec_dirty().contains(x) {
                            let k = choose|k: int| 0 <= k < pre.spec_dirty().len() && pre.spec_dirty()[k] == x;
                            assert(self.spec_dirty()[k - 1] == x);
                        }
                    }
                    assert(self.spec_dirty().contains(x) ==> pre.spec_dirty().contains(x)) by {
                        if self.spec_dirty().contains(x) {
                            let k = choose|k: int| 0 <= k < self.spec_dirty().len() && self.spec_dirty()[k] == x;
                            assert(pre.spec_dirty()[k + 1] == x);
                        }
                    }
                } else {
                    assert(!self.spec_dirty().contains(x)) by {
                        if self.spec_dirty().contains(x) {
                            let k = choose|k: int| 0 <= k < self.spec_dirty().len() && self.spec_dirty()[k] == x;
                            assert(pre.spec_dirty()[k + 1] == x);
                        }
                    }
                }
            }
            assert forall|i: int| 0 <= i < self.spec_dirty().len() implies #[trigger] self.spec_dirty()[i]
                < self.spec_regions() by {
                assert(pre.spec_dirty()[i + 1] < pre.spec_regions());
            }
            assert forall|a: u32, b: u32|
                a < self.spec_regions() && b < self.spec_regions() && #[trigger] self.phase(a) == Phase::Writing
                    && #[trigger] self.phase(b) == Phase::Writing implies a == b by {
                assert(self.phase(id) != Phase::Writing);
                assert(self.phase(a) == pre.phase(a));
                assert(self.phase(b) == pre.phase(b));
            }
        }
        Some(id)
    }

    /// Completes the eviction of region `id`: the catalog drops every item
    /// that lies in it, and only then does the region become clean again.
    pub fn finish_eviction(&mut self, id: u32, catalog: &mut Catalog)
        requires
            old(self).wf(),
            id < old(self).spec_regions(),
            old(self).phase(id) == Phase::Evicting,
            old(catalog).wf(),
        ensures
            final(self).wf(),
            final(catalog).wf(),
            forall|k: Seq<u8>|
                #[trigger] final(catalog).spec_lookup(k) == match old(catalog).spec_lookup(k) {
                    Some(it) => if it.view.region == id {
                        None
                    } else {
                        Some(it)
                    },
                    None => None,
                },
            forall|k: Seq<u8>|
                #[trigger] final(catalog).spec_lookup(k) matches Some(it) ==> it.view.region != id,
            final(self).spec_phases() == old(self).spec_phases().update(id as int, Phase::Clean),
            final(self).spec_clean() == old(self).spec_clean().push(id),
            final(self).spec_dirty() == old(self).spec_dirty(),
            final(self).spec_pins() == old(self).spec_pins(),
    {
        catalog.remove_region(id);
        let ghost pre = *self;
        proof {
            assert(pre.phase(id) == pre.phase(id));
            assert(!pre.spec_clean().contains(id));
        }
        self.phases.set(id as usize, Phase::Clean);
        self.clean.push(id);
        proof {
            assert(self.spec_phases() == pre.spec_phases().update(id as int, Phase::Clean));
            assert(self.spec_clean() == pre.spec_clean().push(id));
            assert(self.spec_dirty() == pre.spec_dirty());
            assert(self.spec_pins() == pre.spec_pins());
            assert forall|x: u32| x < self.spec_regions() implies {
                &&& (self.phase(x) == Phase::Clean <==> self.spec_clean().contains(x))
                &&& (self.phase(x) == Phase::Dirty <==> self.spec_dirty().contains(x))
                &&& (self.phase(x) == Phase::Evicting ==> self.pins_of(x) == 0)
            } by {
                assert(pre.phase(x) == pre.phase(x));
                assert(self.spec_clean()[self.spec_clean().len() - 1] == id);
                if x != id {
                    assert(self.phase(x) == pre.phase(x));
                    assert(self.spec_clean().contains(x) ==> pre.spec_clean().contains(x)) by {
                        if self.spec_clean().contains(x) {
                            let k = choose|k: int| 0 <= k < self.spec_clean().len() && self.spec_clean()[k] == x;
                            assert(pre.spec_clean()[k] == x);
                        }
                    }
                    assert(pre.spec_clean().contains(x) ==> self.spec_clean().contains(x)) by {
                        if pre.spec_clean().contains(x) {
                            let k = choose|k: int| 0 <= k < pre.spec_clean().len() && pre.spec_clean()[k] == x;
                            assert(self.spec_clean()[k] == x);
                        }
                    }
                }
            }
            assert forall|i: int| 0 <= i < self.spec_clean().len() implies #[trigger] self.spec_clean()[i]
                < self.spec_regions() by {
                if i < pre.spec_clean().len() {
                    assert(pre.spec_clean()[i] < pre.spec_regions());
                }
            }
            assert forall|a: u32, b: u32|
                a < self.spec_regions() && b < self.spec_regions() && #[trigger] self.phase(a) == Phase::Writing
                    && #[trigger] self.phase(b) == Phase::Writing implies a == b by {
                assert(self.phase(id) != Phase::Writing);
                assert(self.phase(a) == pre.phase(a));
                assert(self.phase(b) == pre.phase(b));
            }
        }
    }
}

} // verus!
