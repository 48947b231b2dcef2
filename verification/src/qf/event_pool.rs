//! Registry of event pools with first-fit allocation.
//!
//! Pools are registered in order of increasing block size and numbered from
//! 1. An allocation of `size` bytes is served by the first registered pool
//! whose blocks are large enough and which can hand out a block without going
//! below the requested margin.

use vstd::prelude::*;
use crate::qf::pool::QMPool;
use crate::qf::event::{Event, EventHeader, Signal};

verus! {

/// Maximum number of pools a registry holds.
pub const MAX_POOLS: usize = 15;

/// Whether pool number `i` (0-based) would serve an allocation of `size`
/// bytes with `margin`.
pub open spec fn serves(p: QMPool, size: usize, margin: usize) -> bool {
    size <= p.block_bytes() && !(p.free_count() == 0 || p.free_count() - 1 < margin)
}

/// A registry of up to [`MAX_POOLS`] pools.
pub struct PoolRegistry {
    pools: Vec<QMPool>,
}

impl PoolRegistry {
    /// Every registered pool is consistent and initialised.
    pub closed spec fn wf(&self) -> bool {
        &&& self.pools@.len() <= MAX_POOLS
        &&& forall|i: int| 0 <= i < self.pools@.len() ==> #[trigger] self.pools@[i].wf() && self.pools@[i].initialised()
    }

    /// The registered pools, in registration order.
    pub closed spec fn pools(&self) -> Seq<QMPool> {
        self.pools@
    }

    /// An empty registry.
    pub fn new() -> (r: PoolRegistry)
        ensures
            r.wf(),
            r.pools().len() == 0,
    {
        PoolRegistry { pools: Vec::new() }
    }

    /// Registers a pool over `storage` with blocks of `block_size` bytes and
    /// returns its 1-based id. At most [`MAX_POOLS`] pools may be registered.
    pub fn init_pool(&mut self, storage: Vec<u8>, block_size: usize) -> (id: u8)
        requires
            old(self).wf(),
            old(self).pools().len() < MAX_POOLS,
            block_size > 0,
            block_size + 2 * crate::qf::pool::word() <= usize::MAX,
            storage@.len() >= crate::qf::pool::pool_block_size(block_size as nat),
        ensures
            final(self).wf(),
            id == old(self).pools().len() + 1,
            final(self).pools().len() == old(self).pools().len() + 1,
            forall|i: int| 0 <= i < old(self).pools().len() ==> final(self).pools()[i] == old(self).pools()[i],
            final(self).pools().last().block_bytes() == crate::qf::pool::pool_block_size(block_size as nat),
            final(self).pools().last().total() == storage@.len() / crate::qf::pool::pool_block_size(block_size as nat),
            final(self).pools().last().free_count() == final(self).pools().last().total(),
    {
        let mut pool = QMPool::uninit();
        pool.init(storage, block_size);
        self.pools.push(pool);
        self.pools.len() as u8
    }

    /// Number of registered pools.
    pub fn pool_count(&self) -> (n: usize)
        ensures
            n == self.pools().len(),
    {
        self.pools.len()
    }

    /// Allocates a block of at least `size` bytes from the first pool that
    /// serves it with `margin`; returns the 1-based pool id and block index.
    pub fn alloc_block(&mut self, size: usize, margin: usize) -> (r: Option<(u8, usize)>)
        requires
            old(self).wf(),
        ensures
            final(self).wf(),
            final(self).pools().len() == old(self).pools().len(),
            r is None ==> {
                &&& forall|i: int| 0 <= i < old(self).pools().len() ==> !serves(#[trigger] old(self).pools()[i], size, margin)
                &&& forall|i: int| 0 <= i < old(self).pools().len() ==> (#[trigger] final(self).pools()[i]).free_blocks() == old(self).pools()[i].free_blocks()
            },
            r matches Some((id, block)) ==> {
                let i = id - 1;
                &&& 1 <= id <= old(self).pools().len()
                &&& serves(old(self).pools()[i], size, margin)
                &&& forall|j: int| 0 <= j < i ==> !serves(#[trigger] old(self).pools()[j], size, margin)
                &&& old(self).pools()[i].free_blocks().contains(block)
                &&& final(self).pools()[i].free_blocks() == old(self).pools()[i].free_blocks().remove(block)
                &&& final(self).pools()[i].free_count() == old(self).pools()[i].free_count() - 1
                &&& forall|j: int| 0 <= j < old(self).pools().len() && j != i ==> (#[trigger] final(self).pools()[j]) == old(self).pools()[j]
            },
    {
        let n = self.pools.len();
        let mut i: usize = 0;
        while i < n
            invariant
                n == self.pools@.len(),
                self.pools@ == old(self).pools@,
                self.wf(),
                i <= n,
                forall|j: int| 0 <= j < i ==> !serves(#[trigger] old(self).pools()[j], size, margin),
            decreases n - i,
        {
            if self.pools[i].can_serve(size) {
                let ghost before = self.pools@;
                let mut pool = self.pools.remove(i);
                proof { assert(pool == before[i as int]); }
                let got = pool.get(margin);
                self.pools.insert(i, pool);
                proof {
                    assert(self.pools@ =~= before.update(i as int, pool));
                    assert forall|j: int| 0 <= j < self.pools@.len() implies #[trigger] self.pools@[j].wf() && self.pools@[j].initialised() by {
                        if j != i {
                            assert(self.pools@[j] == before[j]);
                            assert(before[j].wf() && before[j].initialised());
                        }
                    }
                }
                match got {
                    Some(block) => {
                        proof {
                            assert forall|j: int| 0 <= j < old(self).pools().len() && j != i implies (#[trigger] self.pools@[j]) == old(self).pools()[j] by {}
                        }
                        return Some(((i + 1) as u8, block));
                    },
                    None => {
                        proof {
                            assert(self.pools@ =~= old(self).pools@);
                        }
                    },
                }
            }
            i += 1;
        }
        None
    }

    /// Returns `block` to pool `pool_id` (1-based). Ids of unregistered pools
    /// are ignored; for a registered pool, `block` must be one of its
    /// allocated blocks.
    #[verifier::spinoff_prover]
    pub fn free(&mut self, pool_id: u8, block: usize)
        requires
            old(self).wf(),
            1 <= pool_id <= old(self).pools().len() ==> {
                &&& block < old(self).pools()[pool_id - 1].total()
                &&& !old(self).pools()[pool_id - 1].free_blocks().contains(block)
            },
        ensures
            final(self).wf(),
            final(self).pools().len() == old(self).pools().len(),
            1 <= pool_id <= old(self).pools().len() ==> {
                &&& final(self).pools()[pool_id - 1].free_blocks() == old(self).pools()[pool_id - 1].free_blocks().insert(block)
                &&& final(self).pools()[pool_id - 1].free_count() == old(self).pools()[pool_id - 1].free_count() + 1
                &&& forall|j: int| 0 <= j < old(self).pools().len() && j != pool_id - 1 ==> (#[trigger] final(self).pools()[j]) == old(self).pools()[j]
            },
            !(1 <= pool_id <= old(self).pools().len()) ==> final(self).pools() == old(self).pools(),
    {
        if pool_id == 0 || pool_id as usize > self.pools.len() {
            return;
        }
        let idx = (pool_id - 1) as usize;
        let ghost before = self.pools@;
        assert(forall|j: int| 0 <= j < before.len() ==> #[trigger] before[j].wf() && before[j].initialised());
        let mut pool = self.pools.remove(idx);
        proof {
            assert(pool == before[idx as int]);
            assert(before[idx as int].wf() && before[idx as int].initialised());
        }
        pool.put(block);
        self.pools.insert(idx, pool);
        proof {
            assert(self.pools@ =~= before.update(idx as int, pool));
            assert forall|j: int| 0 <= j < self.pools@.len() implies #[trigger] self.pools@[j].wf() && self.pools@[j].initialised() by {
                if j != idx {
                    assert(self.pools@[j] == before[j]);
                    assert(before[j].wf());
                } else {
                    assert(self.pools@[j] == pool);
                }
            }
            assert(self.pools@.len() == before.len());
            assert(self.wf());
        }
    }

    /// Free blocks of pool `pool_id`, `None` for an unregistered id.
    pub fn get_free(&self, pool_id: u8) -> (r: Option<usize>)
        requires
            self.wf(),
        ensures
            r == (if 1 <= pool_id <= self.pools().len() {
                Some(self.pools()[pool_id - 1].free_count() as usize)
            } else {
                None::<usize>
            }),
    {
        if pool_id == 0 || pool_id as usize > self.pools.len() {
            return None;
        }
        Some(self.pools[(pool_id - 1) as usize].get_free())
    }

    /// Low-watermark of pool `pool_id`, `None` for an unregistered id.
    pub fn get_min(&self, pool_id: u8) -> (r: Option<usize>)
        requires
            self.wf(),
        ensures
            r == (if 1 <= pool_id <= self.pools().len() {
                Some(self.pools()[pool_id - 1].low_watermark() as usize)
            } else {
                None::<usize>
            }),
    {
        if pool_id == 0 || pool_id as usize > self.pools.len() {
            return None;
        }
        Some(self.pools[(pool_id - 1) as usize].get_min())
    }

    /// Allocated blocks of pool `pool_id`, `None` for an unregistered id.
    pub fn get_use(&self, pool_id: u8) -> (r: Option<usize>)
        requires
            self.wf(),
        ensures
            r == (if 1 <= pool_id <= self.pools().len() {
                Some((self.pools()[pool_id - 1].total() - self.pools()[pool_id - 1].free_count()) as usize)
            } else {
                None::<usize>
            }),
    {
        if pool_id == 0 || pool_id as usize > self.pools.len() {
            return None;
        }
        Some(self.pools[(pool_id - 1) as usize].get_use())
    }
}

/// An event living in a pool block.
pub struct EventBox<T> {
    event: Event<T>,
    block: usize,
    pool_id: u8,
}

impl<T> EventBox<T> {
    /// The boxed event.
    pub closed spec fn event_of(&self) -> Event<T> {
        self.event
    }

    /// The block holding the event.
    pub closed spec fn block_of(&self) -> usize {
        self.block
    }

    /// The 1-based id of the pool holding the event.
    pub closed spec fn pool_of(&self) -> u8 {
        self.pool_id
    }

    /// The boxed event.
    pub fn event(&self) -> (e: &Event<T>)
        ensures
            *e == self.event_of(),
    {
        &self.event
    }

    /// Gives up the box, handing back the event, its block and its pool id.
    pub fn into_raw(self) -> (r: (Event<T>, usize, u8))
        ensures
            r == (self.event_of(), self.block_of(), self.pool_of()),
    {
        (self.event, self.block, self.pool_id)
    }
}

/// Allocates a pool block for an event of signal `sig` carrying `payload`,
/// keeping at least `margin` free blocks in the chosen pool; the event header
/// records the pool id. `None` when no pool serves the allocation.
pub fn q_new_x<T>(registry: &mut PoolRegistry, sig: Signal, payload: T, margin: usize) -> (r: Option<EventBox<T>>)
    requires
        old(registry).wf(),
    ensures
        final(registry).wf(),
        r matches Some(b) ==> {
            &&& b.event_of().header.signal == sig
            &&& b.event_of().header.pool_id == Some(b.pool_of())
            &&& b.event_of().payload == payload
            &&& 1 <= b.pool_of() <= old(registry).pools().len()
            &&& old(registry).pools()[b.pool_of() - 1].free_blocks().contains(b.block_of())
            &&& final(registry).pools()[b.pool_of() - 1].free_blocks() == old(registry).pools()[b.pool_of() - 1].free_blocks().remove(b.block_of())
        },
        r is None ==> forall|i: int| 0 <= i < old(registry).pools().len() ==> !serves(
            #[trigger] old(registry).pools()[i],
            vstd::layout::size_of::<Event<T>>() as usize,
            margin,
        ),
{
    let size = std::mem::size_of::<Event<T>>();
    match registry.alloc_block(size, margin) {
        Some((pool_id, block)) => {
            let header = EventHeader::new(sig).with_pool(pool_id);
            Some(EventBox { event: Event { header, payload }, block, pool_id })
        },
        None => None,
    }
}

/// [`q_new_x`] with no margin.
pub fn q_new<T>(registry: &mut PoolRegistry, sig: Signal, payload: T) -> (r: Option<EventBox<T>>)
    requires
        old(registry).wf(),
    ensures
        final(registry).wf(),
        r matches Some(b) ==> {
            &&& b.event_of().header.signal == sig
            &&& b.event_of().header.pool_id == Some(b.pool_of())
            &&& b.event_of().payload == payload
            &&& 1 <= b.pool_of() <= old(registry).pools().len()
            &&& final(registry).pools()[b.pool_of() - 1].free_blocks() == old(registry).pools()[b.pool_of() - 1].free_blocks().remove(b.block_of())
        },
        r is None ==> forall|i: int| 0 <= i < old(registry).pools().len() ==> !serves(
            #[trigger] old(registry).pools()[i],
            vstd::layout::size_of::<Event<T>>() as usize,
            0,
        ),
{
    q_new_x(registry, sig, payload, 0)
}

/// Returns the block of a pool-allocated event to its pool and hands back
/// the event.
pub fn gc<T>(registry: &mut PoolRegistry, b: EventBox<T>) -> (e: Event<T>)
    requires
        old(registry).wf(),
        1 <= b.pool_of() <= old(registry).pools().len(),
        b.block_of() < old(registry).pools()[b.pool_of() - 1].total(),
        !old(registry).pools()[b.pool_of() - 1].free_blocks().contains(b.block_of()),
    ensures
        final(registry).wf(),
        e == b.event_of(),
        final(registry).pools()[b.pool_of() - 1].free_blocks() == old(registry).pools()[b.pool_of() - 1].free_blocks().insert(b.block_of()),
{
    let (event, block, pool_id) = b.into_raw();
    registry.free(pool_id, block);
    event
}

} // verus!
