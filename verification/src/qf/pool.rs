//! Fixed-size block memory pool.
//!
//! The storage region is divided into `len / block_size` equal blocks, the
//! block size rounded up to whole machine words and to at least two words.
//! Free blocks form a singly linked free list; each link is kept twice
//! (duplicate storage), and the free-list head, the free count and the
//! low-watermark are kept with their complements. Blocks are handed out by
//! index; `get` and `put` are O(1).

use vstd::prelude::*;
use crate::qf::dis::{Dis, Dup};

verus! {

broadcast use vstd::layout::layout_of_primitives;

/// Block index meaning "end of the free list".
pub const SENTINEL: usize = usize::MAX;

/// Size of a machine word in bytes.
pub open spec fn word() -> nat {
    vstd::layout::size_of::<usize>()
}

/// Block size used for a requested size: rounded up to whole words and to
/// at least two words.
pub open spec fn pool_block_size(requested: nat) -> nat {
    let rounded = ((requested + word() - 1) / word() as int) * word();
    if rounded >= 2 * word() { rounded as nat } else { 2 * word() }
}

/// The free list starting at `head` with the given links spells `list`.
pub open spec fn links_spell(links: Seq<Dup<usize>>, list: Seq<usize>, head: usize) -> bool {
    &&& (list.len() == 0 ==> head == SENTINEL)
    &&& (list.len() > 0 ==> head == list[0])
    &&& forall|i: int| 0 <= i < list.len() ==> {
        &&& 0 <= #[trigger] list[i] < links.len()
        &&& links[list[i] as int].intact()
        &&& links[list[i] as int]@ == (if i + 1 < list.len() { list[i + 1] } else { SENTINEL })
    }
}

/// A block allocator over an owned storage region.
pub struct QMPool {
    storage: Vec<u8>,
    block_size: usize,
    num_blocks: usize,
    links: Vec<Dup<usize>>,
    free_head: Dis<usize>,
    free_cnt: Dis<usize>,
    free_min: Dis<usize>,
    free_list: Ghost<Seq<usize>>,
}

impl QMPool {
    /// Internal consistency of the free list and counters.
    pub closed spec fn wf(&self) -> bool {
        &&& self.free_head.intact()
        &&& self.free_cnt.intact()
        &&& self.free_min.intact()
        &&& self.links@.len() == self.num_blocks
        &&& self.num_blocks < SENTINEL
        &&& self.free_list@.no_duplicates()
        &&& self.free_cnt@ == self.free_list@.len()
        &&& self.free_min@ <= self.free_cnt@
        &&& links_spell(self.links@, self.free_list@, self.free_head@)
        &&& (self.num_blocks > 0 ==> self.storage@.len() >= self.num_blocks * self.block_size)
    }

    /// Indices of the free blocks.
    pub closed spec fn free_blocks(&self) -> Set<usize> {
        self.free_list@.to_set()
    }

    /// Number of free blocks.
    pub closed spec fn free_count(&self) -> nat {
        self.free_list@.len()
    }

    /// Total number of blocks.
    pub closed spec fn total(&self) -> nat {
        self.num_blocks as nat
    }

    /// Size of one block in bytes.
    pub closed spec fn block_bytes(&self) -> nat {
        self.block_size as nat
    }

    /// Lowest free count ever observed.
    pub closed spec fn low_watermark(&self) -> nat {
        self.free_min@ as nat
    }

    /// Whether the pool has been initialised.
    pub closed spec fn initialised(&self) -> bool {
        self.num_blocks > 0
    }

    /// An uninitialised pool with no blocks.
    pub fn uninit() -> (p: QMPool)
        ensures
            p.wf(),
            !p.initialised(),
            p.total() == 0,
            p.block_bytes() == 0,
            p.free_count() == 0,
            p.low_watermark() == 0,
    {
        QMPool {
            storage: Vec::new(),
            block_size: 0,
            num_blocks: 0,
            links: Vec::new(),
            free_head: Dis::new_usize(SENTINEL),
            free_cnt: Dis::new_usize(0),
            free_min: Dis::new_usize(0),
            free_list: Ghost(Seq::empty()),
        }
    }

    /// Carves `storage` into blocks of (at least) `block_size` bytes and
    /// returns the number of blocks; every block starts out free, linked in
    /// index order. The block size must be positive and the storage must hold
    /// at least one block.
    pub fn init(&mut self, storage: Vec<u8>, block_size: usize) -> (n: usize)
        requires
            block_size > 0,
            block_size + 2 * word() <= usize::MAX,
            storage@.len() >= pool_block_size(block_size as nat),
        ensures
            final(self).wf(),
            final(self).initialised(),
            n == storage@.len() / pool_block_size(block_size as nat),
            final(self).total() == n,
            final(self).block_bytes() == pool_block_size(block_size as nat),
            final(self).free_count() == n,
            final(self).low_watermark() == n,
            final(self).free_blocks() == Set::new(|b: usize| b < n),
    {
        let align = std::mem::size_of::<usize>();
        proof {
            assert(align == 4 || align == 8) by {
                assert(usize::BITS == 32 || usize::BITS == 64);
            }
        }
        let rounded = ((block_size + align - 1) / align) * align;
        let blk = if rounded >= 2 * align { rounded } else { 2 * align };
        assert(blk as nat == pool_block_size(block_size as nat));
        let total = storage.len();
        let n = total / blk;
        assert(n > 0) by (nonlinear_arith)
            requires
                total >= blk,
                blk > 0,
                n == total / blk,
        ;
        assert(n * blk <= total) by (nonlinear_arith)
            requires
                blk > 0,
                n == total / blk,
        ;
        assert(n < SENTINEL) by (nonlinear_arith)
            requires
                blk >= 2,
                n == total / blk,
                total <= usize::MAX,
        ;
        let mut links: Vec<Dup<usize>> = Vec::new();
        let mut i: usize = 0;
        while i < n
            invariant
                i <= n,
                n < SENTINEL,
                links@.len() == i,
                forall|k: int| 0 <= k < i ==> #[trigger] links@[k].intact() && links@[k]@ == (if k + 1 < n { (k + 1) as usize } else { SENTINEL }),
            decreases n - i,
        {
            let next = if i + 1 < n { i + 1 } else { SENTINEL };
            links.push(Dup::new(next));
            i += 1;
        }
        let ghost list = Seq::new(n as nat, |k: int| k as usize);
        proof {
            assert forall|a: int, b: int| 0 <= a < list.len() && 0 <= b < list.len() && a != b implies list[a] != list[b] by {}
            assert forall|k: int| 0 <= k < list.len() implies {
                &&& 0 <= #[trigger] list[k] < links@.len()
                &&& links@[list[k] as int].intact()
                &&& links@[list[k] as int]@ == (if k + 1 < list.len() { list[k + 1] } else { SENTINEL })
            } by {
                assert(list[k] == k as usize);
                assert(links@[k].intact());
            }
            assert(list.to_set() =~= Set::new(|b: usize| b < n)) by {
                assert forall|b: usize| list.to_set().contains(b) <==> b < n by {
                    if b < n {
                        assert(list[b as int] == b);
                    }
                }
            }
        }
        self.storage = storage;
        self.block_size = blk;
        self.num_blocks = n;
        self.links = links;
        self.free_head = Dis::new(0);
        self.free_cnt = Dis::new(n);
        self.free_min = Dis::new(n);
        self.free_list = Ghost(list);
        n
    }

    /// Allocates a block, unless that would leave fewer than `margin` free
    /// blocks; returns the block's index.
    pub fn get(&mut self, margin: usize) -> (r: Option<usize>)
        requires
            old(self).wf(),
        ensures
            final(self).wf(),
            final(self).total() == old(self).total(),
            final(self).block_bytes() == old(self).block_bytes(),
            final(self).initialised() == old(self).initialised(),
            (old(self).free_count() == 0 || old(self).free_count() - 1 < margin) ==> {
                &&& r is None
                &&& *final(self) == *old(self)
                &&& final(self).free_blocks() == old(self).free_blocks()
                &&& final(self).free_count() == old(self).free_count()
                &&& final(self).low_watermark() == old(self).low_watermark()
            },
            !(old(self).free_count() == 0 || old(self).free_count() - 1 < margin) ==> {
                &&& r is Some
                &&& r.unwrap() < old(self).total()
                &&& old(self).free_blocks().contains(r.unwrap())
                &&& final(self).free_blocks() == old(self).free_blocks().remove(r.unwrap())
                &&& final(self).free_count() == old(self).free_count() - 1
                &&& final(self).low_watermark() == if final(self).free_count() < old(self).low_watermark() {
                    final(self).free_count()
                } else {
                    old(self).low_watermark()
                }
            },
    {
        let free_cnt = self.free_cnt.get();
        if free_cnt == 0 || free_cnt - 1 < margin {
            return None;
        }
        let head = self.free_head.get();
        let ghost list = self.free_list@;
        proof {
            assert(list[0] == head);
        }
        let next = self.links[head].get();
        self.free_head.set(next);
        let new_free = free_cnt - 1;
        self.free_cnt.set(new_free);
        let free_min = self.free_min.get();
        if new_free < free_min {
            self.free_min.set(new_free);
        }
        self.free_list = Ghost(list.drop_first());
        proof {
            let rest = list.drop_first();
            assert forall|i: int| 0 <= i < rest.len() implies {
                &&& 0 <= #[trigger] rest[i] < self.links@.len()
                &&& self.links@[rest[i] as int].intact()
                &&& self.links@[rest[i] as int]@ == (if i + 1 < rest.len() { rest[i + 1] } else { SENTINEL })
            } by {
                assert(rest[i] == list[i + 1]);
            }
            assert(rest.len() > 0 ==> next == rest[0]);
            assert(rest.to_set() =~= list.to_set().remove(head)) by {
                assert forall|b: usize| rest.to_set().contains(b) <==> list.to_set().remove(head).contains(b) by {
                    if rest.to_set().contains(b) {
                        let k = choose|k: int| 0 <= k < rest.len() && rest[k] == b;
                        assert(list[k + 1] == b);
                        assert(b != head);
                    }
                    if list.to_set().remove(head).contains(b) {
                        let k = choose|k: int| 0 <= k < list.len() && list[k] == b;
                        assert(k != 0);
                        assert(rest[k - 1] == b);
                    }
                }
            }
            assert(list.to_set().contains(head));
        }
        Some(head)
    }

    /// Returns block `block` to the pool; it must be an allocated block of
    /// this pool.
    pub fn put(&mut self, block: usize)
        requires
            old(self).wf(),
            block < old(self).total(),
            !old(self).free_blocks().contains(block),
        ensures
            final(self).wf(),
            final(self).total() == old(self).total(),
            final(self).block_bytes() == old(self).block_bytes(),
            final(self).initialised() == old(self).initialised(),
            final(self).free_blocks() == old(self).free_blocks().insert(block),
            final(self).free_count() == old(self).free_count() + 1,
            final(self).low_watermark() == old(self).low_watermark(),
    {
        let ghost list = self.free_list@;
        let old_head = self.free_head.get();
        proof {
            assert(!list.contains(block));
            lemma_free_list_bounded(list, self.num_blocks as nat);
        }
        self.links.set(block, Dup::new(old_head));
        self.free_head.set(block);
        let new_cnt = self.free_cnt.get() + 1;
        self.free_cnt.set(new_cnt);
        let ghost newlist = seq![block] + list;
        self.free_list = Ghost(newlist);
        proof {
            lemma_push_free(old(self).links@, self.links@, list, old_head, block);
        }
    }

    /// Block size in bytes.
    pub fn block_size(&self) -> (r: usize)
        ensures
            r == self.block_bytes(),
    {
        self.block_size
    }

    /// Total number of blocks.
    pub fn num_blocks(&self) -> (r: usize)
        ensures
            r == self.total(),
    {
        self.num_blocks
    }

    /// Number of free blocks.
    pub fn get_free(&self) -> (r: usize)
        requires
            self.wf(),
        ensures
            r == self.free_count(),
    {
        self.free_cnt.get()
    }

    /// Number of allocated blocks.
    pub fn get_use(&self) -> (r: usize)
        requires
            self.wf(),
        ensures
            r == self.total() - self.free_count(),
    {
        proof { lemma_free_list_bounded(self.free_list@, self.num_blocks as nat); }
        self.num_blocks - self.free_cnt.get()
    }

    /// Lowest free count ever observed.
    pub fn get_min(&self) -> (r: usize)
        requires
            self.wf(),
        ensures
            r == self.low_watermark(),
    {
        self.free_min.get()
    }

    /// Whether a block of this pool can hold `size` bytes.
    pub fn can_serve(&self, size: usize) -> (r: bool)
        ensures
            r == (size <= self.block_bytes()),
    {
        size <= self.block_size
    }

    /// Whether the pool has been initialised.
    pub fn is_init(&self) -> (r: bool)
        ensures
            r == self.initialised(),
    {
        self.num_blocks > 0
    }
}

/// Pushing an allocated block onto the free list keeps the list spelled by
/// the links and duplicate-free.
proof fn lemma_push_free(links: Seq<Dup<usize>>, new_links: Seq<Dup<usize>>, list: Seq<usize>, head: usize, block: usize)
    requires
        links_spell(links, list, head),
        list.no_duplicates(),
        !list.contains(block),
        block < links.len(),
        new_links.len() == links.len(),
        new_links[block as int].intact(),
        new_links[block as int]@ == head,
        forall|j: int| 0 <= j < links.len() && j != block ==> new_links[j] == links[j],
    ensures
        links_spell(new_links, seq![block] + list, block),
        (seq![block] + list).no_duplicates(),
        (seq![block] + list).to_set() == list.to_set().insert(block),
        (seq![block] + list).len() == list.len() + 1,
{
    let newlist = seq![block] + list;
    assert forall|i: int| 0 <= i < newlist.len() implies {
        &&& 0 <= #[trigger] newlist[i] < new_links.len()
        &&& new_links[newlist[i] as int].intact()
        &&& new_links[newlist[i] as int]@ == (if i + 1 < newlist.len() { newlist[i + 1] } else { SENTINEL })
    } by {
        if i > 0 {
            assert(newlist[i] == list[i - 1]);
            assert(list[i - 1] != block);
        } else {
            if list.len() > 0 {
                assert(newlist[1] == list[0]);
            }
        }
    }
    assert forall|a: int, b: int| 0 <= a < newlist.len() && 0 <= b < newlist.len() && a != b implies newlist[a] != newlist[b] by {
        if a > 0 && b > 0 {
            assert(newlist[a] == list[a - 1]);
            assert(newlist[b] == list[b - 1]);
        } else if a == 0 {
            assert(newlist[b] == list[b - 1]);
        } else {
            assert(newlist[a] == list[a - 1]);
        }
    }
    assert(newlist.to_set() =~= list.to_set().insert(block)) by {
        assert forall|b: usize| newlist.to_set().contains(b) <==> list.to_set().insert(block).contains(b) by {
            if newlist.to_set().contains(b) {
                let k = choose|k: int| 0 <= k < newlist.len() && newlist[k] == b;
                if k > 0 {
                    assert(list[k - 1] == b);
                }
            }
            if list.to_set().contains(b) {
                let k = choose|k: int| 0 <= k < list.len() && list[k] == b;
                assert(newlist[k + 1] == b);
            }
            if b == block {
                assert(newlist[0] == b);
            }
        }
    }
}

/// A duplicate-free list of indices below `n` has at most `n` elements.
pub proof fn lemma_free_list_bounded(list: Seq<usize>, n: nat)
    requires
        list.no_duplicates(),
        forall|i: int| 0 <= i < list.len() ==> #[trigger] list[i] < n,
    ensures
        list.len() <= n,
{
    let s = list.to_set();
    list.unique_seq_to_set();
    let full = Set::new(|b: usize| b < n);
    assert(s.subset_of(full));
    lemma_range_set_len(n);
    vstd::set_lib::lemma_len_subset(s, full);
}

/// The set of indices below `n` is finite with `n` elements.
proof fn lemma_range_set_len(n: nat)
    ensures
        Set::new(|b: usize| b < n).finite(),
        n <= usize::MAX + 1 ==> Set::new(|b: usize| b < n).len() == n,
        n > usize::MAX + 1 ==> Set::new(|b: usize| b < n).len() <= n,
    decreases n,
{
    if n == 0 {
        assert(Set::new(|b: usize| b < n) =~= Set::<usize>::empty());
    } else {
        lemma_range_set_len((n - 1) as nat);
        if n <= usize::MAX + 1 {
            assert(Set::new(|b: usize| b < n) =~= Set::new(|b: usize| b < (n - 1) as nat).insert((n - 1) as usize));
        } else {
            assert(Set::new(|b: usize| b < n) =~= Set::new(|b: usize| b < (n - 1) as nat));
        }
    }
}

/// Law: a block taken from the pool and put back leaves the free blocks as
/// they were.
pub proof fn lemma_get_put_restores(free: Set<usize>, block: usize)
    requires
        free.contains(block),
    ensures
        free.remove(block).insert(block) == free,
{
    assert(free.remove(block).insert(block) =~= free);
}

} // verus!
