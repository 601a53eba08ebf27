//! Minimal bump pointer + unordered free list allocator.
//!
//! The strategy trades reuse quality for code size and startup cost: released
//! blocks go onto a single unordered chain in LIFO order, allocation scans it
//! first-fit, and anything the chain cannot serve is bump-allocated. Nothing
//! is ever merged, so long-running processes fragment; the strategy suits
//! short-lived tasks.
//!
//! Releasing a block with a descriptor other than the one it was allocated
//! with, or releasing it twice, is a contract violation; the preconditions
//! of `deallocate` and `reallocate` state this through the set of live
//! blocks.

use crate::memory::copy_region;
use crate::single_threaded::blocks::{
    block_wf, blocks_view, find_fit, lemma_blocks_view_insert, lemma_blocks_view_remove,
    lemma_find_fit_characterization, ranges_disjoint, scan_first_fit, seq_blocks_disjoint,
    seq_blocks_wf, seq_set_disjoint, set_blocks_disjoint, set_blocks_wf, FreeBlock,
};
use crate::single_threaded::bump::{
    bump_extend, bump_fresh, bump_step, lemma_bump_extend_hopeless, lemma_bump_extend_props,
    lemma_bump_step_hopeless, lemma_bump_step_props, BumpCore, BumpCoreView,
};
use crate::single_threaded::sizes::{
    full_size, is_pow2, lemma_align16_covers, lemma_full_size_props, lemma_mod_trans,
    lemma_pow2_multiple_of_16, spec_full_size,
};
use crate::MAX_MEMORY_BYTES;
use vstd::prelude::*;

verus! {

/// The mathematical state of a [`BumpFreeListAllocator`].
#[verifier::ext_equal]
pub struct BumpFreeListView {
    /// The unordered free chain, most recently released block first.
    pub free: Seq<(int, int)>,
    /// The bump region and the bytes of the linear memory.
    pub core: BumpCoreView,
    /// The live blocks: returned by `allocate` and not yet released.
    pub live: Set<(int, int)>,
}

impl BumpFreeListView {
    /// Free and live blocks are in good standing below the top of the heap,
    /// pairwise disjoint, and disjoint from one another.
    pub open spec fn wf(self) -> bool {
        &&& self.core.wf()
        &&& seq_blocks_wf(self.free, self.core.heap_top)
        &&& seq_blocks_disjoint(self.free)
        &&& set_blocks_wf(self.live, self.core.heap_top)
        &&& set_blocks_disjoint(self.live)
        &&& seq_set_disjoint(self.free, self.live)
    }
}

/// The state of a freshly built allocator: nothing claimed, nothing chained.
pub open spec fn bf_fresh() -> BumpFreeListView {
    BumpFreeListView { free: Seq::empty(), core: bump_fresh(), live: Set::empty() }
}

/// What `allocate` does: first fit from the chain, else a bump allocation.
pub open spec fn bf_alloc_spec(v: BumpFreeListView, size: int, align: int) -> (
    Option<int>,
    BumpFreeListView,
) {
    let s = spec_full_size(size);
    let ar = if align < 16 {
        16
    } else {
        align
    };
    match find_fit(v.free, s) {
        Some(i) => (
            Some(v.free[i].0),
            BumpFreeListView { free: v.free.remove(i), live: v.live.insert((v.free[i].0, s)), ..v },
        ),
        None => {
            let (rr, c2) = bump_step(v.core, s, ar);
            match rr {
                Some(t) => (Some(t), BumpFreeListView { core: c2, live: v.live.insert((t, s)), ..v }),
                None => (None, BumpFreeListView { core: c2, ..v }),
            }
        },
    }
}

/// What `deallocate` does: push the block onto the head of the chain.
pub open spec fn bf_dealloc_spec(v: BumpFreeListView, addr: int, size: int) -> BumpFreeListView {
    let s = spec_full_size(size);
    BumpFreeListView { free: seq![(addr, s)] + v.free, live: v.live.remove((addr, s)), ..v }
}

/// What the allocate-new/copy/release-old fallback of `reallocate` does. The
/// first `min(size, new_size)` bytes move to the new block.
pub open spec fn bf_realloc_move_spec(
    v: BumpFreeListView,
    addr: int,
    size: int,
    align: int,
    new_size: int,
) -> (Option<int>, BumpFreeListView) {
    let (rr, v2) = bf_alloc_spec(v, new_size, align);
    match rr {
        None => (None, v2),
        Some(np) => {
            let len = if size < new_size {
                size
            } else {
                new_size
            };
            let v3 = BumpFreeListView {
                core: BumpCoreView { mem: copy_region(v2.core.mem, addr, np, len), ..v2.core },
                ..v2
            };
            (Some(np), bf_dealloc_spec(v3, addr, size))
        },
    }
}

/// What `reallocate` does: in place when the block sits at the top of the
/// heap and the heap can take the difference, else allocate-copy-release.
pub open spec fn bf_realloc_spec(
    v: BumpFreeListView,
    addr: int,
    size: int,
    align: int,
    new_size: int,
) -> (Option<int>, BumpFreeListView) {
    let old_s = spec_full_size(size);
    let new_s = spec_full_size(new_size);
    if addr + old_s == v.core.heap_top {
        if new_s <= old_s {
            (
                Some(addr),
                BumpFreeListView { live: v.live.remove((addr, old_s)).insert((addr, new_s)), ..v },
            )
        } else {
            let (ok, c2) = bump_extend(v.core, new_s - old_s);
            if ok {
                (
                    Some(addr),
                    BumpFreeListView {
                        core: c2,
                        live: v.live.remove((addr, old_s)).insert((addr, new_s)),
                        ..v
                    },
                )
            } else {
                bf_realloc_move_spec(v, addr, size, align, new_size)
            }
        }
    } else {
        bf_realloc_move_spec(v, addr, size, align, new_size)
    }
}

/// In every branch of `bf_alloc_spec`, success adds exactly the returned
/// block to the live set and leaves the chain's other blocks alone; failure
/// changes nothing.
proof fn lemma_bf_alloc_live(v: BumpFreeListView, size: int, align: int)
    ensures
        ({
            let (rr, v2) = bf_alloc_spec(v, size, align);
            match rr {
                Some(b) => v2.live == v.live.insert((b, spec_full_size(size))),
                None => v2 == v,
            }
        }),
{
    let s = spec_full_size(size);
    let ar: int = if align < 16 {
        16
    } else {
        align
    };
    match find_fit(v.free, s) {
        Some(i) => {},
        None => {
            let (rr, c2) = bump_step(v.core, s, ar);
            match rr {
                Some(t) => {},
                None => {
                    assert(bf_alloc_spec(v, size, align).1 =~= v);
                },
            }
        },
    }
}

/// Taking the first fit whole preserves the invariant, and the carved block
/// is disjoint from every block that was live before.
proof fn lemma_alloc_from_chain_wf(v: BumpFreeListView, i: int, s: int)
    requires
        v.wf(),
        0 <= i < v.free.len(),
        16 <= s <= v.free[i].1,
        s % 16 == 0,
    ensures
        (BumpFreeListView {
            free: v.free.remove(i),
            live: v.live.insert((v.free[i].0, s)),
            ..v
        }).wf(),
        forall|b: (int, int)|
            v.live.contains(b) ==> ranges_disjoint((v.free[i].0, s), b),
        v.free[i].0 % 16 == 0,
{
    let blk = (v.free[i].0, s);
    let v2 = BumpFreeListView { free: v.free.remove(i), live: v.live.insert(blk), ..v };
    assert(block_wf(v.free[i], v.core.heap_top));
    assert forall|b: (int, int)| v.live.contains(b) implies ranges_disjoint(blk, b) by {
        assert(ranges_disjoint(v.free[i], b));
    }
    assert forall|j: int| 0 <= j < v2.free.len() implies block_wf(#[trigger] v2.free[j],
        v2.core.heap_top,
    ) by {
        if j < i {
            assert(v2.free[j] == v.free[j]);
        } else {
            assert(v2.free[j] == v.free[j + 1]);
        }
    }
    assert forall|j: int, k: int|
        0 <= j < v2.free.len() && 0 <= k < v2.free.len() && j != k implies ranges_disjoint(
        #[trigger] v2.free[j],
        #[trigger] v2.free[k],
    ) by {
        let j0 = if j < i {
            j
        } else {
            j + 1
        };
        let k0 = if k < i {
            k
        } else {
            k + 1
        };
        assert(v2.free[j] == v.free[j0] && v2.free[k] == v.free[k0]);
        assert(ranges_disjoint(v.free[j0], v.free[k0]));
    }
    assert forall|b: (int, int)| #[trigger] v2.live.contains(b) implies block_wf(b,
        v2.core.heap_top,
    ) by {
        if b != blk {
            assert(v.live.contains(b));
        }
    }
    assert forall|a: (int, int), b: (int, int)|
        #[trigger] v2.live.contains(a) && #[trigger] v2.live.contains(b) && a != b
        implies ranges_disjoint(a, b) by {
        if a == blk {
            assert(v.live.contains(b));
            assert(ranges_disjoint(v.free[i], b));
        } else if b == blk {
            assert(v.live.contains(a));
            assert(ranges_disjoint(v.free[i], a));
        } else {
            assert(v.live.contains(a) && v.live.contains(b));
        }
    }
    assert forall|j: int, b: (int, int)|
        0 <= j < v2.free.len() && #[trigger] v2.live.contains(b) implies ranges_disjoint(
        #[trigger] v2.free[j],
        b,
    ) by {
        let j0 = if j < i {
            j
        } else {
            j + 1
        };
        assert(v2.free[j] == v.free[j0]);
        if b == blk {
            assert(ranges_disjoint(v.free[j0], v.free[i]));
        } else {
            assert(v.live.contains(b));
        }
    }
}

/// A block bump-allocated at or above the old top of the heap preserves the
/// invariant and is disjoint from every block that was live before.
proof fn lemma_alloc_bump_wf(v: BumpFreeListView, c2: BumpCoreView, t: int, s: int)
    requires
        v.wf(),
        c2.wf(),
        t % 16 == 0,
        v.core.heap_top <= t,
        c2.heap_top == t + s,
        16 <= s,
        s % 16 == 0,
    ensures
        (BumpFreeListView { core: c2, live: v.live.insert((t, s)), ..v }).wf(),
        forall|b: (int, int)| v.live.contains(b) ==> ranges_disjoint((t, s), b),
{
    let blk = (t, s);
    let v2 = BumpFreeListView { core: c2, live: v.live.insert(blk), ..v };
    assert forall|b: (int, int)| v.live.contains(b) implies ranges_disjoint(blk, b) by {
        assert(block_wf(b, v.core.heap_top));
    }
    assert forall|j: int| 0 <= j < v2.free.len() implies block_wf(#[trigger] v2.free[j],
        v2.core.heap_top,
    ) by {
        assert(block_wf(v.free[j], v.core.heap_top));
    }
    assert forall|b: (int, int)| #[trigger] v2.live.contains(b) implies block_wf(b,
        v2.core.heap_top,
    ) by {
        if b != blk {
            assert(v.live.contains(b));
        }
    }
    assert forall|a: (int, int), b: (int, int)|
        #[trigger] v2.live.contains(a) && #[trigger] v2.live.contains(b) && a != b
        implies ranges_disjoint(a, b) by {
        if a == blk {
            assert(v.live.contains(b));
            assert(block_wf(b, v.core.heap_top));
        } else if b == blk {
            assert(v.live.contains(a));
            assert(block_wf(a, v.core.heap_top));
        } else {
            assert(v.live.contains(a) && v.live.contains(b));
        }
    }
    assert forall|j: int, b: (int, int)|
        0 <= j < v2.free.len() && #[trigger] v2.live.contains(b) implies ranges_disjoint(
        #[trigger] v2.free[j],
        b,
    ) by {
        if b == blk {
            assert(block_wf(v.free[j], v.core.heap_top));
        } else {
            assert(v.live.contains(b));
        }
    }
}

/// Pushing a live block onto the chain preserves the invariant.
proof fn lemma_dealloc_wf(v: BumpFreeListView, addr: int, s: int)
    requires
        v.wf(),
        v.live.contains((addr, s)),
    ensures
        (BumpFreeListView {
            free: seq![(addr, s)] + v.free,
            live: v.live.remove((addr, s)),
            ..v
        }).wf(),
{
    let blk = (addr, s);
    let v2 = BumpFreeListView { free: seq![blk] + v.free, live: v.live.remove(blk), ..v };
    assert(block_wf(blk, v.core.heap_top));
    assert forall|j: int| 0 <= j < v2.free.len() implies block_wf(#[trigger] v2.free[j],
        v2.core.heap_top,
    ) by {
        if j > 0 {
            assert(v2.free[j] == v.free[j - 1]);
        }
    }
    assert forall|j: int, k: int|
        0 <= j < v2.free.len() && 0 <= k < v2.free.len() && j != k implies ranges_disjoint(
        #[trigger] v2.free[j],
        #[trigger] v2.free[k],
    ) by {
        if j == 0 {
            assert(v2.free[k] == v.free[k - 1]);
            assert(ranges_disjoint(v.free[k - 1], blk));
        } else if k == 0 {
            assert(v2.free[j] == v.free[j - 1]);
            assert(ranges_disjoint(v.free[j - 1], blk));
        } else {
            assert(v2.free[j] == v.free[j - 1] && v2.free[k] == v.free[k - 1]);
            assert(ranges_disjoint(v.free[j - 1], v.free[k - 1]));
        }
    }
    assert forall|b: (int, int)| #[trigger] v2.live.contains(b) implies block_wf(b,
        v2.core.heap_top,
    ) by {
        assert(v.live.contains(b));
    }
    assert forall|j: int, b: (int, int)|
        0 <= j < v2.free.len() && #[trigger] v2.live.contains(b) implies ranges_disjoint(
        #[trigger] v2.free[j],
        b,
    ) by {
        assert(v.live.contains(b));
        if j == 0 {
            assert(ranges_disjoint(blk, b));
        } else {
            assert(v2.free[j] == v.free[j - 1]);
            assert(ranges_disjoint(v.free[j - 1], b));
        }
    }
}

/// Resizing a live block in place preserves the invariant, provided the new
/// extent stays within the (possibly advanced) top of the heap, and either
/// the block shrinks or it ended exactly at the old top.
proof fn lemma_resize_in_place_wf(
    v: BumpFreeListView,
    addr: int,
    old_s: int,
    new_s: int,
    c2: BumpCoreView,
)
    requires
        v.wf(),
        v.live.contains((addr, old_s)),
        16 <= new_s,
        new_s % 16 == 0,
        addr + new_s <= c2.heap_top,
        c2.wf(),
        v.core.heap_top <= c2.heap_top,
        new_s <= old_s || addr + old_s == v.core.heap_top,
    ensures
        (BumpFreeListView {
            core: c2,
            live: v.live.remove((addr, old_s)).insert((addr, new_s)),
            ..v
        }).wf(),
{
    let old_blk = (addr, old_s);
    let new_blk = (addr, new_s);
    let v2 = BumpFreeListView {
        core: c2,
        live: v.live.remove(old_blk).insert(new_blk),
        ..v
    };
    assert(block_wf(old_blk, v.core.heap_top));
    assert forall|b: (int, int)|
        v.live.contains(b) && b != old_blk implies ranges_disjoint(new_blk, b) by {
        assert(ranges_disjoint(old_blk, b));
        assert(block_wf(b, v.core.heap_top));
    }
    assert forall|j: int| 0 <= j < v2.free.len() implies block_wf(#[trigger] v2.free[j],
        v2.core.heap_top,
    ) by {
        assert(block_wf(v.free[j], v.core.heap_top));
    }
    assert forall|b: (int, int)| #[trigger] v2.live.contains(b) implies block_wf(b,
        v2.core.heap_top,
    ) by {
        if b != new_blk {
            assert(v.live.contains(b));
        }
    }
    assert forall|a: (int, int), b: (int, int)|
        #[trigger] v2.live.contains(a) && #[trigger] v2.live.contains(b) && a != b
        implies ranges_disjoint(a, b) by {
        if a == new_blk {
            assert(v.live.contains(b) && b != old_blk);
        } else if b == new_blk {
            assert(v.live.contains(a) && a != old_blk);
        } else {
            assert(v.live.contains(a) && v.live.contains(b));
        }
    }
    assert forall|j: int, b: (int, int)|
        0 <= j < v2.free.len() && #[trigger] v2.live.contains(b) implies ranges_disjoint(
        #[trigger] v2.free[j],
        b,
    ) by {
        assert(block_wf(v.free[j], v.core.heap_top));
        if b == new_blk {
            assert(ranges_disjoint(v.free[j], old_blk));
        } else {
            assert(v.live.contains(b));
        }
    }
}

/// Minimal bump pointer + unordered free list allocator. Single-threaded:
/// the value owns all of its state, including its linear memory.
pub struct BumpFreeListAllocator {
    core: BumpCore,
    free: Vec<FreeBlock>,
    live: Ghost<Set<(int, int)>>,
}

impl View for BumpFreeListAllocator {
    type V = BumpFreeListView;

    closed spec fn view(&self) -> BumpFreeListView {
        BumpFreeListView { free: blocks_view(self.free@), core: self.core@, live: self.live@ }
    }
}

impl BumpFreeListAllocator {
    /// The allocator's invariant.
    pub open spec fn wf(&self) -> bool {
        self@.wf()
    }

    /// A fresh allocator over a fresh linear memory.
    pub fn new() -> (r: BumpFreeListAllocator)
        ensures
            r.wf(),
            r@ == bf_fresh(),
    {
        let r = BumpFreeListAllocator {
            core: BumpCore::new(),
            free: Vec::new(),
            live: Ghost(Set::empty()),
        };
        proof {
            assert(blocks_view(r.free@) =~= Seq::<(int, int)>::empty());
            assert(r@ =~= bf_fresh());
        }
        r
    }

    /// Testing only: restores the fresh state, dropping every block and the
    /// whole claimed region. Calling it while an allocation is still in use
    /// forfeits that block.
    pub fn reset(&mut self)
        ensures
            final(self).wf(),
            final(self)@ == bf_fresh(),
    {
        let fresh = BumpFreeListAllocator::new();
        *self = fresh;
    }

    /// Requests a block of `size` bytes aligned to `align` (a power of two).
    ///
    /// The first block of the chain that is large enough is reused whole;
    /// otherwise the block is bump-allocated at the aligned top of the heap,
    /// growing the claimed region when needed. Returns `None` only when the
    /// growth primitive fails. A returned address is 16-byte aligned, meets
    /// every supported alignment, and its block is disjoint from every live
    /// allocation.
    pub fn allocate(&mut self, size: usize, align: usize) -> (r: Option<usize>)
        requires
            old(self).wf(),
            is_pow2(align),
        ensures
            final(self).wf(),
            ({
                let (rr, v2) = bf_alloc_spec(old(self)@, size as int, align as int);
                &&& final(self)@ == v2
                &&& match (r, rr) {
                    (Some(a), Some(b)) => a as int == b,
                    (None, None) => true,
                    _ => false,
                }
            }),
            match r {
                Some(a) => {
                    &&& a as int % 16 == 0
                    &&& align <= 16 ==> a as int % (align as int) == 0
                    &&& forall|b: (int, int)|
                        old(self)@.live.contains(b) ==> ranges_disjoint(
                            (a as int, spec_full_size(size as int)),
                            b,
                        )
                },
                None => true,
            },
    {
        let ghost v0 = self@;
        if size > MAX_MEMORY_BYTES {
            proof {
                lemma_full_size_props(size as int);
                lemma_find_fit_characterization(v0.free, spec_full_size(size as int));
                let ar: int = if align < 16 {
                    16
                } else {
                    align as int
                };
                lemma_bump_step_hopeless(v0.core, spec_full_size(size as int), ar);
                assert(self@ =~= bf_alloc_spec(v0, size as int, align as int).1);
            }
            return None;
        }
        let s = full_size(size);
        proof {
            lemma_full_size_props(size as int);
        }
        match scan_first_fit(&self.free, s) {
            Some(i) => {
                let b = self.free[i];
                self.free.remove(i);
                proof {
                    lemma_blocks_view_remove(old(self).free@, i as int);
                }
                self.live = Ghost(self.live@.insert((b.addr as int, s as int)));
                proof {
                    assert(v0.free[i as int] == (b.addr as int, b.size as int));
                    lemma_alloc_from_chain_wf(v0, i as int, s as int);
                    assert(self@ =~= bf_alloc_spec(v0, size as int, align as int).1);
                    if align <= 16 {
                        lemma_align16_covers(b.addr, align);
                    }
                }
                Some(b.addr)
            },
            None => {
                let ar = if align < 16 {
                    16usize
                } else {
                    align
                };
                proof {
                    if align < 16 {
                        assert(is_pow2(16usize)) by (bit_vector);
                    }
                    lemma_bump_step_props(v0.core, s as int, ar as int);
                }
                let rb = self.core.bump_alloc(s, ar);
                match rb {
                    Some(t) => {
                        self.live = Ghost(self.live@.insert((t as int, s as int)));
                        proof {
                            lemma_pow2_multiple_of_16(ar);
                            lemma_mod_trans(t as int, ar as int, 16);
                            lemma_alloc_bump_wf(v0, self.core@, t as int, s as int);
                            if align <= 16 {
                                lemma_align16_covers(t, align);
                            }
                            assert(self@ =~= bf_alloc_spec(v0, size as int, align as int).1);
                        }
                        Some(t)
                    },
                    None => {
                        proof {
                            assert(self@ =~= bf_alloc_spec(v0, size as int, align as int).1);
                        }
                        None
                    },
                }
            },
        }
    }

    /// Releases a block previously returned by `allocate` with the identical
    /// descriptor: pushed onto the head of the chain in one step, without
    /// merging.
    pub fn deallocate(&mut self, addr: usize, size: usize, _align: usize)
        requires
            old(self).wf(),
            old(self)@.live.contains((addr as int, spec_full_size(size as int))),
        ensures
            final(self).wf(),
            final(self)@ == bf_dealloc_spec(old(self)@, addr as int, size as int),
    {
        let ghost v0 = self@;
        proof {
            lemma_full_size_props(size as int);
            assert(block_wf((addr as int, spec_full_size(size as int)), v0.core.heap_top));
        }
        let s = full_size(size);
        self.free.insert(0, FreeBlock { addr, size: s });
        proof {
            lemma_blocks_view_insert(old(self).free@, 0, FreeBlock { addr, size: s });
        }
        self.live = Ghost(self.live@.remove((addr as int, s as int)));
        proof {
            assert(blocks_view(self.free@) =~= seq![(addr as int, s as int)] + v0.free);
            lemma_dealloc_wf(v0, addr as int, s as int);
            assert(self@ =~= bf_dealloc_spec(v0, addr as int, size as int));
        }
    }

    /// Changes the size of the block at `addr`, previously returned by
    /// `allocate` with the identical `size` and `align`. Grows in place only
    /// when the block sits exactly at the top of the heap; every other case,
    /// including shrinking elsewhere, falls back to allocate-copy-release.
    /// Returns the block's new address, or `None` (leaving the block
    /// untouched) when growth fails.
    pub fn reallocate(&mut self, addr: usize, size: usize, align: usize, new_size: usize) -> (r:
        Option<usize>)
        requires
            old(self).wf(),
            is_pow2(align),
            old(self)@.live.contains((addr as int, spec_full_size(size as int))),
        ensures
            final(self).wf(),
            ({
                let (rr, v2) = bf_realloc_spec(
                    old(self)@,
                    addr as int,
                    size as int,
                    align as int,
                    new_size as int,
                );
                &&& final(self)@ == v2
                &&& match (r, rr) {
                    (Some(a), Some(b)) => a as int == b,
                    (None, None) => true,
                    _ => false,
                }
            }),
    {
        let ghost v0 = self@;
        proof {
            lemma_full_size_props(size as int);
            lemma_full_size_props(new_size as int);
            assert(block_wf((addr as int, spec_full_size(size as int)), v0.core.heap_top));
        }
        let old_s = full_size(size);
        if addr + old_s == self.core.heap_top {
            if new_size <= MAX_MEMORY_BYTES {
                let new_s = full_size(new_size);
                if new_s <= old_s {
                    self.live = Ghost(
                        self.live@.remove((addr as int, old_s as int)).insert(
                            (addr as int, new_s as int),
                        ),
                    );
                    proof {
                        lemma_resize_in_place_wf(v0, addr as int, old_s as int, new_s as int,
                            v0.core);
                        assert(self@ =~= bf_realloc_spec(v0, addr as int, size as int,
                            align as int, new_size as int).1);
                    }
                    return Some(addr);
                }
                proof {
                    lemma_bump_extend_props(v0.core, new_s - old_s);
                }
                let ok = self.core.bump_extend(new_s - old_s);
                if ok {
                    self.live = Ghost(
                        self.live@.remove((addr as int, old_s as int)).insert(
                            (addr as int, new_s as int),
                        ),
                    );
                    proof {
                        lemma_resize_in_place_wf(v0, addr as int, old_s as int, new_s as int,
                            self.core@);
                        assert(self@ =~= bf_realloc_spec(v0, addr as int, size as int,
                            align as int, new_size as int).1);
                    }
                    return Some(addr);
                }
                let r = self.realloc_move(addr, size, align, new_size);
                proof {
                    assert(bf_realloc_spec(v0, addr as int, size as int, align as int,
                        new_size as int) == bf_realloc_move_spec(v0, addr as int, size as int,
                        align as int, new_size as int));
                }
                return r;
            }
            proof {
                lemma_bump_extend_hopeless(
                    v0.core,
                    spec_full_size(new_size as int) - spec_full_size(size as int),
                );
            }
            let r = self.realloc_move(addr, size, align, new_size);
            proof {
                assert(bf_realloc_spec(v0, addr as int, size as int, align as int, new_size as int)
                    == bf_realloc_move_spec(v0, addr as int, size as int, align as int,
                    new_size as int));
            }
            return r;
        }
        self.realloc_move(addr, size, align, new_size)
    }

    /// The allocate-new, copy, release-old path of `reallocate`. The bytes
    /// copied are the first `min(size, new_size)` of the block.
    fn realloc_move(&mut self, addr: usize, size: usize, align: usize, new_size: usize) -> (r:
        Option<usize>)
        requires
            old(self).wf(),
            is_pow2(align),
            old(self)@.live.contains((addr as int, spec_full_size(size as int))),
        ensures
            final(self).wf(),
            ({
                let (rr, v2) = bf_realloc_move_spec(
                    old(self)@,
                    addr as int,
                    size as int,
                    align as int,
                    new_size as int,
                );
                &&& final(self)@ == v2
                &&& match (r, rr) {
                    (Some(a), Some(b)) => a as int == b,
                    (None, None) => true,
                    _ => false,
                }
            }),
    {
        let ghost v0 = self@;
        proof {
            lemma_full_size_props(size as int);
            lemma_full_size_props(new_size as int);
            lemma_bf_alloc_live(v0, new_size as int, align as int);
        }
        match self.allocate(new_size, align) {
            None => None,
            Some(np) => {
                let ghost v1 = self@;
                let len = if size < new_size {
                    size
                } else {
                    new_size
                };
                proof {
                    assert(v1.live.contains((np as int, spec_full_size(new_size as int))));
                    assert(v1.live.contains((addr as int, spec_full_size(size as int))));
                    assert(block_wf((np as int, spec_full_size(new_size as int)),
                        v1.core.heap_top));
                    assert(block_wf((addr as int, spec_full_size(size as int)),
                        v1.core.heap_top));
                }
                self.core.memory.copy_bytes(addr, np, len);
                proof {
                    assert(self@ =~= (BumpFreeListView {
                        core: BumpCoreView {
                            mem: copy_region(v1.core.mem, addr as int, np as int, len as int),
                            ..v1.core
                        },
                        ..v1
                    }));
                    assert(self@.wf());
                    assert(self@.live.contains((addr as int, spec_full_size(size as int))));
                }
                self.deallocate(addr, size, align);
                proof {
                    assert(self@ =~= bf_realloc_move_spec(v0, addr as int, size as int,
                        align as int, new_size as int).1);
                }
                Some(np)
            },
        }
    }

    /// Writes one byte into the linear memory; `addr` must lie in the
    /// claimed region (callers write only into blocks they own).
    pub fn write_byte(&mut self, addr: usize, val: u8)
        requires
            old(self).wf(),
            addr < old(self)@.core.mem.len(),
        ensures
            final(self).wf(),
            final(self)@ == (BumpFreeListView {
                core: BumpCoreView {
                    mem: old(self)@.core.mem.update(addr as int, val),
                    ..old(self)@.core
                },
                ..old(self)@
            }),
    {
        self.core.memory.write_byte(addr, val);
        proof {
            assert(self@ =~= (BumpFreeListView {
                core: BumpCoreView {
                    mem: old(self)@.core.mem.update(addr as int, val),
                    ..old(self)@.core
                },
                ..old(self)@
            }));
        }
    }

    /// Reads one byte of the linear memory.
    pub fn read_byte(&self, addr: usize) -> (r: u8)
        requires
            addr < self@.core.mem.len(),
        ensures
            r == self@.core.mem[addr as int],
    {
        self.core.memory.read_byte(addr)
    }
}


/// Law: releasing a block and then requesting an equal-or-smaller rounded
/// size hands the same address back — pure LIFO reuse, with no merging across
/// gaps.
pub proof fn lemma_lifo_reuse(
    v: BumpFreeListView,
    addr: int,
    size: int,
    size2: int,
    align2: int,
)
    requires
        spec_full_size(size2) <= spec_full_size(size),
    ensures
        ({
            let v2 = bf_dealloc_spec(v, addr, size);
            bf_alloc_spec(v2, size2, align2).0 == Some(addr)
        }),
{
    let v2 = bf_dealloc_spec(v, addr, size);
    assert(v2.free[0] == (addr, spec_full_size(size)));
}

/// Law: an allocation comes back empty only when nothing chained fits and
/// the bump path's growth fails.
pub proof fn lemma_alloc_failure_is_growth_failure(v: BumpFreeListView, size: int, align: int)
    ensures
        bf_alloc_spec(v, size, align).0 is None ==> {
            let s = spec_full_size(size);
            let ar = if align < 16 {
                16
            } else {
                align
            };
            &&& find_fit(v.free, s) is None
            &&& bump_step(v.core, s, ar).0 is None
        },
{
}

/// Law: the outcome of every operation depends on the bookkeeping state
/// alone, so after a reset the first allocation lands on the same address as
/// after any other reset.
pub proof fn lemma_reset_repeats_first_address(
    v1: BumpFreeListView,
    v2: BumpFreeListView,
    size: int,
    align: int,
)
    requires
        v1 == bf_fresh(),
        v2 == bf_fresh(),
    ensures
        bf_alloc_spec(v1, size, align) == bf_alloc_spec(v2, size, align),
{
}

} // verus!
