//! Fixed size-class bins + bump pointer fallback allocator.
//!
//! Four power-of-two classes (16, 32, 64 and 128 bytes) give O(1) allocation
//! and release for small requests; each class keeps a LIFO stack of released
//! blocks. Anything above the largest class, or aligned beyond 16 bytes,
//! bypasses the bins and is bump-allocated; releasing such a block is a
//! deliberate no-op — the block leaks for the lifetime of the allocator, a
//! code-size/speed trade-off for short-lived workloads.
//!
//! Releasing a block with a descriptor other than the one it was allocated
//! with, or releasing it twice, is a contract violation; the preconditions
//! of `deallocate` and `reallocate` state this through the set of live
//! blocks.

use crate::memory::copy_region;
use crate::single_threaded::blocks::ranges_disjoint;
use crate::single_threaded::bump::{
    bump_extend, bump_fresh, bump_step, lemma_bump_extend_hopeless, lemma_bump_extend_props,
    lemma_bump_step_hopeless, lemma_bump_step_props, BumpCore, BumpCoreView,
};
use crate::single_threaded::sizes::{
    get_index, is_pow2, lemma_align16_covers, lemma_mod_trans, lemma_pow2_multiple_of_16,
    spec_bin_index, spec_bin_size,
};
use crate::MAX_MEMORY_BYTES;
use vstd::prelude::*;

verus! {

/// Whether two blocks share no byte; a block of no bytes intersects nothing.
pub open spec fn ranges_separate(a: (int, int), b: (int, int)) -> bool {
    a.1 == 0 || b.1 == 0 || ranges_disjoint(a, b)
}

/// The bytes set aside for a request of `size` and `align`: its class size
/// for binned requests, the exact request otherwise (coerced up to 16 for a
/// large request, left as it is for a highly aligned one).
pub open spec fn seg_granted(size: int, align: int) -> int {
    if align > 16 {
        size
    } else if size <= 16 {
        16
    } else if size <= 32 {
        32
    } else if size <= 64 {
        64
    } else if size <= 128 {
        128
    } else {
        size
    }
}

/// The mathematical state of a [`SegregatedBumpAllocator`].
#[verifier::ext_equal]
pub struct SegregatedView {
    /// The four bin stacks of released block addresses, most recent first.
    pub bins: Seq<Seq<int>>,
    /// The bump region and the bytes of the linear memory.
    pub core: BumpCoreView,
    /// The live blocks: returned by `allocate` and not yet released.
    pub live: Set<(int, int)>,
}

impl SegregatedView {
    /// The block standing at `bins[i][j]`.
    pub open spec fn bin_block(self, i: int, j: int) -> (int, int) {
        (self.bins[i][j], spec_bin_size(i))
    }

    /// Binned and live blocks are in good standing below the top of the
    /// heap, pairwise disjoint, and disjoint from one another.
    pub open spec fn wf(self) -> bool {
        &&& self.core.wf()
        &&& self.bins.len() == 4
        &&& forall|i: int, j: int|
            0 <= i < 4 && 0 <= j < self.bins[i].len() ==> {
                let b = #[trigger] self.bins[i][j];
                b >= 0 && b % 16 == 0 && b + spec_bin_size(i) <= self.core.heap_top
            }
        &&& forall|i1: int, j1: int, i2: int, j2: int|
            0 <= i1 < 4 && 0 <= j1 < self.bins[i1].len() && 0 <= i2 < 4 && 0 <= j2
                < self.bins[i2].len() && (i1 != i2 || j1 != j2) ==> ranges_disjoint(
                #[trigger] self.bin_block(i1, j1),
                #[trigger] self.bin_block(i2, j2),
            )
        &&& forall|b: (int, int)|
            #[trigger] self.live.contains(b) ==> b.0 >= 0 && b.0 % 16 == 0 && b.1 >= 0 && b.0 + b.1
                <= self.core.heap_top
        &&& forall|a: (int, int), b: (int, int)|
            #[trigger] self.live.contains(a) && #[trigger] self.live.contains(b) && a != b
                ==> ranges_separate(a, b)
        &&& forall|i: int, j: int, b: (int, int)|
            0 <= i < 4 && 0 <= j < self.bins[i].len() && #[trigger] self.live.contains(b)
                ==> ranges_separate(#[trigger] self.bin_block(i, j), b)
    }
}

/// The state of a freshly built allocator: nothing claimed, all bins empty.
pub open spec fn seg_fresh() -> SegregatedView {
    SegregatedView {
        bins: seq![Seq::empty(), Seq::empty(), Seq::empty(), Seq::empty()],
        core: bump_fresh(),
        live: Set::empty(),
    }
}

/// What `allocate` does: pop the matching bin, else bump-allocate the class
/// size; large or highly aligned requests bypass the bins.
pub open spec fn seg_alloc_spec(v: SegregatedView, size: int, align: int) -> (
    Option<int>,
    SegregatedView,
) {
    if align > 16 {
        let (rr, c2) = bump_step(v.core, size, align);
        match rr {
            Some(t) => (Some(t), SegregatedView { core: c2, live: v.live.insert((t, size)), ..v }),
            None => (None, SegregatedView { core: c2, ..v }),
        }
    } else {
        let s = if size < 16 {
            16
        } else {
            size
        };
        match spec_bin_index(s) {
            Some(iu) => {
                let i = iu as int;
                if v.bins[i].len() > 0 {
                    let a = v.bins[i][0];
                    (
                        Some(a),
                        SegregatedView {
                            bins: v.bins.update(i, v.bins[i].skip(1)),
                            live: v.live.insert((a, spec_bin_size(i))),
                            ..v
                        },
                    )
                } else {
                    let (rr, c2) = bump_step(v.core, spec_bin_size(i), 16);
                    match rr {
                        Some(t) => (
                            Some(t),
                            SegregatedView {
                                core: c2,
                                live: v.live.insert((t, spec_bin_size(i))),
                                ..v
                            },
                        ),
                        None => (None, SegregatedView { core: c2, ..v }),
                    }
                }
            },
            None => {
                let (rr, c2) = bump_step(v.core, s, 16);
                match rr {
                    Some(t) => (Some(t), SegregatedView { core: c2, live: v.live.insert((t, s)), ..v }),
                    None => (None, SegregatedView { core: c2, ..v }),
                }
            },
        }
    }
}

/// What `deallocate` does: push onto the matching bin; large or highly
/// aligned blocks are leaked on purpose.
pub open spec fn seg_dealloc_spec(v: SegregatedView, addr: int, size: int, align: int)
-> SegregatedView {
    if align > 16 {
        SegregatedView { live: v.live.remove((addr, size)), ..v }
    } else {
        let s = if size < 16 {
            16
        } else {
            size
        };
        match spec_bin_index(s) {
            Some(iu) => {
                let i = iu as int;
                SegregatedView {
                    bins: v.bins.update(i, seq![addr] + v.bins[i]),
                    live: v.live.remove((addr, spec_bin_size(i))),
                    ..v
                }
            },
            None => SegregatedView { live: v.live.remove((addr, s)), ..v },
        }
    }
}

/// What the allocate-new/copy/release-old fallback of `reallocate` does.
pub open spec fn seg_realloc_move_spec(
    v: SegregatedView,
    addr: int,
    size: int,
    align: int,
    new_size: int,
) -> (Option<int>, SegregatedView) {
    let (rr, v2) = seg_alloc_spec(v, new_size, align);
    match rr {
        None => (None, v2),
        Some(np) => {
            let len = if size < new_size {
                size
            } else {
                new_size
            };
            let v3 = SegregatedView {
                core: BumpCoreView { mem: copy_region(v2.core.mem, addr, np, len), ..v2.core },
                ..v2
            };
            (Some(np), seg_dealloc_spec(v3, addr, size, align))
        },
    }
}

/// What `reallocate` does: unchanged while the new size fits the old
/// capacity; in-place growth only for a block sitting exactly at the top of
/// the heap; else allocate-copy-release.
pub open spec fn seg_realloc_spec(
    v: SegregatedView,
    addr: int,
    size: int,
    align: int,
    new_size: int,
) -> (Option<int>, SegregatedView) {
    let cap = seg_granted(size, align);
    if new_size <= cap {
        (
            Some(addr),
            SegregatedView {
                live: v.live.remove((addr, cap)).insert((addr, seg_granted(new_size, align))),
                ..v
            },
        )
    } else if addr + cap == v.core.heap_top {
        let (ok, c2) = bump_extend(v.core, new_size - cap);
        if ok {
            (
                Some(addr),
                SegregatedView {
                    core: c2,
                    live: v.live.remove((addr, cap)).insert((addr, new_size)),
                    ..v
                },
            )
        } else {
            seg_realloc_move_spec(v, addr, size, align, new_size)
        }
    } else {
        seg_realloc_move_spec(v, addr, size, align, new_size)
    }
}

/// Fixed size-class bins + bump pointer fallback allocator. Single-threaded:
/// the value owns all of its state, including its linear memory.
pub struct SegregatedBumpAllocator {
    core: BumpCore,
    bin16: Vec<usize>,
    bin32: Vec<usize>,
    bin64: Vec<usize>,
    bin128: Vec<usize>,
    live: Ghost<Set<(int, int)>>,
}

/// The mathematical image of one bin stack.
pub open spec fn addrs_view(v: Seq<usize>) -> Seq<int> {
    v.map(|i: int, a: usize| a as int)
}

impl View for SegregatedBumpAllocator {
    type V = SegregatedView;

    closed spec fn view(&self) -> SegregatedView {
        SegregatedView {
            bins: seq![
                addrs_view(self.bin16@),
                addrs_view(self.bin32@),
                addrs_view(self.bin64@),
                addrs_view(self.bin128@),
            ],
            core: self.core@,
            live: self.live@,
        }
    }
}

impl SegregatedBumpAllocator {
    /// The allocator's invariant.
    pub open spec fn wf(&self) -> bool {
        self@.wf()
    }

    /// A fresh allocator over a fresh linear memory.
    pub fn new() -> (r: SegregatedBumpAllocator)
        ensures
            r.wf(),
            r@ == seg_fresh(),
    {
        let r = SegregatedBumpAllocator {
            core: BumpCore::new(),
            bin16: Vec::new(),
            bin32: Vec::new(),
            bin64: Vec::new(),
            bin128: Vec::new(),
            live: Ghost(Set::empty()),
        };
        proof {
            assert(addrs_view(r.bin16@) =~= Seq::<int>::empty());
            assert(addrs_view(r.bin32@) =~= Seq::<int>::empty());
            assert(addrs_view(r.bin64@) =~= Seq::<int>::empty());
            assert(addrs_view(r.bin128@) =~= Seq::<int>::empty());
            assert(r@ =~= seg_fresh());
        }
        r
    }

    /// Testing only: restores the fresh state, dropping every block and the
    /// whole claimed region. Calling it while an allocation is still in use
    /// forfeits that block.
    pub fn reset(&mut self)
        ensures
            final(self).wf(),
            final(self)@ == seg_fresh(),
    {
        let fresh = SegregatedBumpAllocator::new();
        *self = fresh;
    }

    /// Pops the most recently released address of bin `i`, if any.
    fn bin_pop(&mut self, i: usize) -> (r: Option<usize>)
        requires
            i < 4,
            old(self)@.bins[i as int].len() > 0,
        ensures
            ({
                let v0 = old(self)@;
                &&& r matches Some(a) && a as int == v0.bins[i as int][0]
                &&& final(self)@ == (SegregatedView {
                    bins: v0.bins.update(i as int, v0.bins[i as int].skip(1)),
                    ..v0
                })
            }),
    {
        let a = match i {
            0 => self.bin16.remove(0),
            1 => self.bin32.remove(0),
            2 => self.bin64.remove(0),
            _ => self.bin128.remove(0),
        };
        proof {
            let v0 = old(self)@;
            assert(self@.bins =~= v0.bins.update(i as int, v0.bins[i as int].skip(1))) by {
                match i {
                    0 => {
                        assert(addrs_view(self.bin16@) =~= v0.bins[0].skip(1));
                    },
                    1 => {
                        assert(addrs_view(self.bin32@) =~= v0.bins[1].skip(1));
                    },
                    2 => {
                        assert(addrs_view(self.bin64@) =~= v0.bins[2].skip(1));
                    },
                    _ => {
                        assert(addrs_view(self.bin128@) =~= v0.bins[3].skip(1));
                    },
                }
            }
            assert(self@ =~= (SegregatedView {
                bins: v0.bins.update(i as int, v0.bins[i as int].skip(1)),
                ..v0
            }));
        }
        Some(a)
    }

    /// Pushes a released address onto the head of bin `i`.
    fn bin_push(&mut self, i: usize, addr: usize)
        requires
            i < 4,
        ensures
            final(self)@ == (SegregatedView {
                bins: old(self)@.bins.update(
                    i as int,
                    seq![addr as int] + old(self)@.bins[i as int],
                ),
                ..old(self)@
            }),
    {
        match i {
            0 => self.bin16.insert(0, addr),
            1 => self.bin32.insert(0, addr),
            2 => self.bin64.insert(0, addr),
            _ => self.bin128.insert(0, addr),
        };
        proof {
            let v0 = old(self)@;
            assert(self@.bins =~= v0.bins.update(i as int, seq![addr as int] + v0.bins[i as int]))
                by {
                match i {
                    0 => {
                        assert(addrs_view(self.bin16@) =~= seq![addr as int] + v0.bins[0]);
                    },
                    1 => {
                        assert(addrs_view(self.bin32@) =~= seq![addr as int] + v0.bins[1]);
                    },
                    2 => {
                        assert(addrs_view(self.bin64@) =~= seq![addr as int] + v0.bins[2]);
                    },
                    _ => {
                        assert(addrs_view(self.bin128@) =~= seq![addr as int] + v0.bins[3]);
                    },
                }
            }
            assert(self@ =~= (SegregatedView {
                bins: v0.bins.update(i as int, seq![addr as int] + v0.bins[i as int]),
                ..v0
            }));
        }
    }

    /// Whether bin `i` has a block ready.
    fn bin_nonempty(&self, i: usize) -> (r: bool)
        requires
            i < 4,
        ensures
            r == (self@.bins[i as int].len() > 0),
    {
        match i {
            0 => self.bin16.len() > 0,
            1 => self.bin32.len() > 0,
            2 => self.bin64.len() > 0,
            _ => self.bin128.len() > 0,
        }
    }

    /// Requests a block of `size` bytes aligned to `align` (a power of two).
    ///
    /// A request of at most 128 bytes with alignment at most 16 is served
    /// from its bin in one step, or bump-allocated at the class size when the
    /// bin is empty. Larger or more aligned requests bypass the bins and are
    /// bump-allocated exactly. Returns `None` only when the growth primitive
    /// fails. A returned address meets the requested alignment, and its block
    /// is disjoint from every live allocation.
    pub fn allocate(&mut self, size: usize, align: usize) -> (r: Option<usize>)
        requires
            old(self).wf(),
            is_pow2(align),
        ensures
            final(self).wf(),
            ({
                let (rr, v2) = seg_alloc_spec(old(self)@, size as int, align as int);
                &&& final(self)@ == v2
                &&& match (r, rr) {
                    (Some(a), Some(b)) => a as int == b,
                    (None, None) => true,
                    _ => false,
                }
            }),
            match r {
                Some(a) => {
                    &&& a as int % (align as int) == 0
                    &&& forall|b: (int, int)|
                        old(self)@.live.contains(b) ==> ranges_separate(
                            (a as int, seg_granted(size as int, align as int)),
                            b,
                        )
                },
                None => true,
            },
    {
        let ghost v0 = self@;
        if size > MAX_MEMORY_BYTES {
            proof {
                let s: int = if align > 16 {
                    size as int
                } else {
                    if (size as int) < 16 {
                        16
                    } else {
                        size as int
                    }
                };
                lemma_bump_step_hopeless(v0.core, s, if align > 16 {
                    align as int
                } else {
                    16
                });
                assert(self@ =~= seg_alloc_spec(v0, size as int, align as int).1);
            }
            return None;
        }
        if align > 16 {
            proof {
                lemma_bump_step_props(v0.core, size as int, align as int);
            }
            let rb = self.core.bump_alloc(size, align);
            match rb {
                Some(t) => {
                    self.live = Ghost(self.live@.insert((t as int, size as int)));
                    proof {
                        lemma_pow2_multiple_of_16(align);
                        lemma_mod_trans(t as int, align as int, 16);
                        lemma_seg_bump_wf(v0, self.core@, t as int, size as int);
                        assert(self@ =~= seg_alloc_spec(v0, size as int, align as int).1);
                    }
                    Some(t)
                },
                None => {
                    proof {
                        assert(self@ =~= seg_alloc_spec(v0, size as int, align as int).1);
                    }
                    None
                },
            }
        } else {
            let s = if size < 16 {
                16usize
            } else {
                size
            };
            match get_index(s) {
                Some(i) => {
                    if self.bin_nonempty(i) {
                        let a = self.bin_pop(i).unwrap();
                        let ghost v1 = self@;
                        self.live = Ghost(self.live@.insert((a as int, spec_bin_size(i as int))));
                        proof {
                            lemma_seg_bin_pop_wf(v0, i as int);
                            assert(self@ =~= seg_alloc_spec(v0, size as int, align as int).1);
                            lemma_align16_covers(a, align);
                        }
                        Some(a)
                    } else {
                        let class = 16usize << i;
                        proof {
                            assert(16usize << 0usize == 16usize) by (bit_vector);
                            assert(16usize << 1usize == 32usize) by (bit_vector);
                            assert(16usize << 2usize == 64usize) by (bit_vector);
                            assert(16usize << 3usize == 128usize) by (bit_vector);
                            assert(class as int == spec_bin_size(i as int));
                            assert(is_pow2(16usize)) by (bit_vector);
                            lemma_bump_step_props(v0.core, class as int, 16);
                        }
                        let rb = self.core.bump_alloc(class, 16);
                        match rb {
                            Some(t) => {
                                self.live = Ghost(
                                    self.live@.insert((t as int, spec_bin_size(i as int))),
                                );
                                proof {
                                    lemma_seg_bump_wf(v0, self.core@, t as int, class as int);
                                    assert(self@ =~= seg_alloc_spec(v0, size as int,
                                        align as int).1);
                                    lemma_align16_covers(t, align);
                                }
                                Some(t)
                            },
                            None => {
                                proof {
                                    assert(self@ =~= seg_alloc_spec(v0, size as int,
                                        align as int).1);
                                }
                                None
                            },
                        }
                    }
                },
                None => {
                    proof {
                        assert(is_pow2(16usize)) by (bit_vector);
                        lemma_bump_step_props(v0.core, s as int, 16);
                    }
                    let rb = self.core.bump_alloc(s, 16);
                    match rb {
                        Some(t) => {
                            self.live = Ghost(self.live@.insert((t as int, s as int)));
                            proof {
                                lemma_seg_bump_wf(v0, self.core@, t as int, s as int);
                                assert(self@ =~= seg_alloc_spec(v0, size as int, align as int).1);
                                lemma_align16_covers(t, align);
                            }
                            Some(t)
                        },
                        None => {
                            proof {
                                assert(self@ =~= seg_alloc_spec(v0, size as int, align as int).1);
                            }
                            None
                        },
                    }
                },
            }
        }
    }

    /// Releases a block previously returned by `allocate` with the identical
    /// descriptor. A binned block goes back onto its bin's head in one step;
    /// a large or highly aligned block is leaked on purpose.
    pub fn deallocate(&mut self, addr: usize, size: usize, align: usize)
        requires
            old(self).wf(),
            old(self)@.live.contains((addr as int, seg_granted(size as int, align as int))),
        ensures
            final(self).wf(),
            final(self)@ == seg_dealloc_spec(old(self)@, addr as int, size as int, align as int),
    {
        let ghost v0 = self@;
        if align > 16 {
            self.live = Ghost(self.live@.remove((addr as int, size as int)));
            proof {
                lemma_seg_live_remove_wf(v0, (addr as int, size as int));
                assert(self@ =~= seg_dealloc_spec(v0, addr as int, size as int, align as int));
            }
            return ;
        }
        let s = if size < 16 {
            16usize
        } else {
            size
        };
        match get_index(s) {
            Some(i) => {
                self.bin_push(i, addr);
                self.live = Ghost(self.live@.remove((addr as int, spec_bin_size(i as int))));
                proof {
                    lemma_seg_bin_push_wf(v0, i as int, addr as int);
                    assert(self@ =~= seg_dealloc_spec(v0, addr as int, size as int, align as int));
                }
            },
            None => {
                self.live = Ghost(self.live@.remove((addr as int, s as int)));
                proof {
                    lemma_seg_live_remove_wf(v0, (addr as int, s as int));
                    assert(self@ =~= seg_dealloc_spec(v0, addr as int, size as int, align as int));
                }
            },
        }
    }

    /// Changes the size of the block at `addr`, previously returned by
    /// `allocate` with the identical `size` and `align`. The pointer is
    /// unchanged while `new_size` fits the block's capacity; a block sitting
    /// exactly at the top of the heap grows in place; every other case falls
    /// back to allocate-copy-release. A block allocated with alignment above
    /// 16 carries no record of a sub-minimal size, so such a block must hold
    /// at least 16 bytes. Returns the block's new address, or `None`
    /// (leaving the block untouched) when growth fails.
    pub fn reallocate(&mut self, addr: usize, size: usize, align: usize, new_size: usize) -> (r:
        Option<usize>)
        requires
            old(self).wf(),
            is_pow2(align),
            old(self)@.live.contains((addr as int, seg_granted(size as int, align as int))),
            align > 16 ==> size >= 16,
        ensures
            final(self).wf(),
            ({
                let (rr, v2) = seg_realloc_spec(
                    old(self)@,
                    addr as int,
                    size as int,
                    align as int,
                    new_size as int,
                );
                &&& final(self)@ == v2
                &&& match (r, rr) {
                    (Some(a), Some(b)) => a as int == b,
                    (None, None) => true,
                    _ => false,
                }
            }),
    {
        let ghost v0 = self@;
        let ghost capg = seg_granted(size as int, align as int);
        proof {
            assert(v0.live.contains((addr as int, capg)));
        }
        let old_size = if size < 16 {
            16usize
        } else {
            size
        };
        let cap = if align > 16 {
            old_size
        } else {
            match get_index(old_size) {
                Some(i) => 16usize << i,
                None => old_size,
            }
        };
        proof {
            assert(16usize << 0usize == 16usize) by (bit_vector);
            assert(16usize << 1usize == 32usize) by (bit_vector);
            assert(16usize << 2usize == 64usize) by (bit_vector);
            assert(16usize << 3usize == 128usize) by (bit_vector);
            assert(cap as int == capg);
        }
        if new_size <= cap {
            self.live = Ghost(
                self.live@.remove((addr as int, capg)).insert(
                    (addr as int, seg_granted(new_size as int, align as int)),
                ),
            );
            proof {
                lemma_seg_resize_in_place_wf(v0, addr as int, capg, seg_granted(new_size as int,
                    align as int), v0.core);
                assert(self@ =~= seg_realloc_spec(v0, addr as int, size as int, align as int,
                    new_size as int).1);
            }
            return Some(addr);
        }
        if addr + cap == self.core.heap_top {
            if new_size <= MAX_MEMORY_BYTES {
                proof {
                    lemma_bump_extend_props(v0.core, new_size - cap);
                }
                let ok = self.core.bump_extend(new_size - cap);
                if ok {
                    self.live = Ghost(
                        self.live@.remove((addr as int, capg)).insert(
                            (addr as int, new_size as int),
                        ),
                    );
                    proof {
                        lemma_seg_resize_in_place_wf(v0, addr as int, capg, new_size as int,
                            self.core@);
                        assert(self@ =~= seg_realloc_spec(v0, addr as int, size as int,
                            align as int, new_size as int).1);
                    }
                    return Some(addr);
                }
                let r = self.realloc_move(addr, size, align, new_size);
                proof {
                    assert(seg_realloc_spec(v0, addr as int, size as int, align as int,
                        new_size as int) == seg_realloc_move_spec(v0, addr as int, size as int,
                        align as int, new_size as int));
                }
                return r;
            }
            proof {
                lemma_bump_extend_hopeless(v0.core, new_size - capg);
            }
            let r = self.realloc_move(addr, size, align, new_size);
            proof {
                assert(seg_realloc_spec(v0, addr as int, size as int, align as int,
                    new_size as int) == seg_realloc_move_spec(v0, addr as int, size as int,
                    align as int, new_size as int));
            }
            return r;
        }
        self.realloc_move(addr, size, align, new_size)
    }

    /// The allocate-new, copy, release-old path of `reallocate`. The bytes
    /// copied are the first `min(size, new_size)` of the block.
    fn realloc_move(&mut self, addr: usize, size: usize, align: usize, new_size: usize) -> (r:
        Option<usize>)
        requires
            old(self).wf(),
            is_pow2(align),
            old(self)@.live.contains((addr as int, seg_granted(size as int, align as int))),
        ensures
            final(self).wf(),
            ({
                let (rr, v2) = seg_realloc_move_spec(
                    old(self)@,
                    addr as int,
                    size as int,
                    align as int,
                    new_size as int,
                );
                &&& final(self)@ == v2
                &&& match (r, rr) {
                    (Some(a), Some(b)) => a as int == b,
                    (None, None) => true,
                    _ => false,
                }
            }),
    {
        let ghost v0 = self@;
        proof {
            lemma_seg_alloc_live(v0, new_size as int, align as int);
        }
        match self.allocate(new_size, align) {
            None => None,
            Some(np) => {
                let ghost v1 = self@;
                let ghost newg = seg_granted(new_size as int, align as int);
                let len = if size < new_size {
                    size
                } else {
                    new_size
                };
                proof {
                    assert(v1.live.contains((np as int, newg)));
                    assert(v1.live.contains((addr as int, seg_granted(size as int, align as int))));
                    lemma_seg_granted_covers(size as int, align as int);
                    lemma_seg_granted_covers(new_size as int, align as int);
                }
                self.core.memory.copy_bytes(addr, np, len);
                proof {
                    assert(self@ =~= (SegregatedView {
                        core: BumpCoreView {
                            mem: copy_region(v1.core.mem, addr as int, np as int, len as int),
                            ..v1.core
                        },
                        ..v1
                    }));
                    lemma_seg_wf_frame(v1, self@);
                    assert(self@.wf());
                    assert(self@.live.contains((addr as int, seg_granted(size as int,
                        align as int))));
                }
                self.deallocate(addr, size, align);
                proof {
                    assert(self@ =~= seg_realloc_move_spec(v0, addr as int, size as int,
                        align as int, new_size as int).1);
                }
                Some(np)
            },
        }
    }

    /// Writes one byte into the linear memory; `addr` must lie in the
    /// claimed region (callers write only into blocks they own).
    pub fn write_byte(&mut self, addr: usize, val: u8)
        requires
            old(self).wf(),
            addr < old(self)@.core.mem.len(),
        ensures
            final(self).wf(),
            final(self)@ == (SegregatedView {
                core: BumpCoreView {
                    mem: old(self)@.core.mem.update(addr as int, val),
                    ..old(self)@.core
                },
                ..old(self)@
            }),
    {
        self.core.memory.write_byte(addr, val);
        proof {
            assert(self@ =~= (SegregatedView {
                core: BumpCoreView {
                    mem: old(self)@.core.mem.update(addr as int, val),
                    ..old(self)@.core
                },
                ..old(self)@
            }));
            lemma_seg_wf_frame(old(self)@, self@);
        }
    }

    /// Reads one byte of the linear memory.
    pub fn read_byte(&self, addr: usize) -> (r: u8)
        requires
            addr < self@.core.mem.len(),
        ensures
            r == self@.core.mem[addr as int],
    {
        self.core.memory.read_byte(addr)
    }
}

/// The bytes granted cover the bytes asked for, and are at least the class
/// size for binned requests.
proof fn lemma_seg_granted_covers(size: int, align: int)
    ensures
        align <= 16 ==> seg_granted(size, align) >= size,
        align > 16 ==> seg_granted(size, align) == size,
{
}

/// Every branch of `seg_alloc_spec` that succeeds adds exactly the returned
/// block, of the granted size, to the live set; failure changes nothing.
proof fn lemma_seg_alloc_live(v: SegregatedView, size: int, align: int)
    ensures
        ({
            let (rr, v2) = seg_alloc_spec(v, size, align);
            match rr {
                Some(b) => v2.live == v.live.insert((b, seg_granted(size, align))),
                None => v2 == v,
            }
        }),
{
    if align > 16 {
        let (rr, c2) = bump_step(v.core, size, align);
        if rr is None {
            assert(seg_alloc_spec(v, size, align).1 =~= v);
        }
    } else {
        let s = if size < 16 {
            16
        } else {
            size
        };
        match spec_bin_index(s) {
            Some(iu) => {
                let i = iu as int;
                if v.bins[i].len() > 0 {
                } else {
                    let (rr, c2) = bump_step(v.core, spec_bin_size(i), 16);
                    if rr is None {
                        assert(seg_alloc_spec(v, size, align).1 =~= v);
                    }
                }
            },
            None => {
                let (rr, c2) = bump_step(v.core, s, 16);
                if rr is None {
                    assert(seg_alloc_spec(v, size, align).1 =~= v);
                }
            },
        }
    }
}

/// The bin conjuncts of the invariant survive any change that keeps the bins
/// and does not lower the top of the heap.
proof fn lemma_seg_bins_frame(v: SegregatedView, v2: SegregatedView)
    requires
        v.wf(),
        v2.bins == v.bins,
        v2.core.heap_top >= v.core.heap_top,
    ensures
        forall|i: int, j: int|
            0 <= i < 4 && 0 <= j < v2.bins[i].len() ==> {
                let b = #[trigger] v2.bins[i][j];
                b >= 0 && b % 16 == 0 && b + spec_bin_size(i) <= v2.core.heap_top
            },
        forall|i1: int, j1: int, i2: int, j2: int|
            0 <= i1 < 4 && 0 <= j1 < v2.bins[i1].len() && 0 <= i2 < 4 && 0 <= j2
                < v2.bins[i2].len() && (i1 != i2 || j1 != j2) ==> ranges_disjoint(
                #[trigger] v2.bin_block(i1, j1),
                #[trigger] v2.bin_block(i2, j2),
            ),
{
    assert forall|i: int, j: int| 0 <= i < 4 && 0 <= j < v2.bins[i].len() implies {
        let b = #[trigger] v2.bins[i][j];
        b >= 0 && b % 16 == 0 && b + spec_bin_size(i) <= v2.core.heap_top
    } by {
        assert(v.bins[i][j] + spec_bin_size(i) <= v.core.heap_top);
    }
    assert forall|i1: int, j1: int, i2: int, j2: int|
        0 <= i1 < 4 && 0 <= j1 < v2.bins[i1].len() && 0 <= i2 < 4 && 0 <= j2 < v2.bins[i2].len()
        && (i1 != i2 || j1 != j2) implies ranges_disjoint(
        #[trigger] v2.bin_block(i1, j1),
        #[trigger] v2.bin_block(i2, j2),
    ) by {
        assert(ranges_disjoint(v.bin_block(i1, j1), v.bin_block(i2, j2)));
        assert(v2.bin_block(i1, j1) == v.bin_block(i1, j1));
        assert(v2.bin_block(i2, j2) == v.bin_block(i2, j2));
    }
}

/// The whole invariant survives a change that keeps bins and live blocks and
/// does not lower the top of the heap.
proof fn lemma_seg_wf_frame(v: SegregatedView, v2: SegregatedView)
    requires
        v.wf(),
        v2.bins == v.bins,
        v2.live == v.live,
        v2.core.wf(),
        v2.core.heap_top >= v.core.heap_top,
    ensures
        v2.wf(),
{
    lemma_seg_bins_frame(v, v2);
    assert forall|b: (int, int)| #[trigger] v2.live.contains(b) implies b.0 >= 0 && b.0 % 16 == 0
        && b.1 >= 0 && b.0 + b.1 <= v2.core.heap_top by {
        assert(v.live.contains(b));
    }
    assert forall|a: (int, int), b: (int, int)|
        #[trigger] v2.live.contains(a) && #[trigger] v2.live.contains(b) && a != b
        implies ranges_separate(a, b) by {
        assert(v.live.contains(a) && v.live.contains(b));
    }
    assert forall|i: int, j: int, b: (int, int)|
        0 <= i < 4 && 0 <= j < v2.bins[i].len() && #[trigger] v2.live.contains(b)
        implies ranges_separate(#[trigger] v2.bin_block(i, j), b) by {
        assert(v.live.contains(b));
        assert(ranges_separate(v.bin_block(i, j), b));
        assert(v2.bin_block(i, j) == v.bin_block(i, j));
    }
}

/// A block bump-allocated at or above the old top of the heap preserves the
/// invariant and is disjoint from every block that was live before.
proof fn lemma_seg_bump_wf(v: SegregatedView, c2: BumpCoreView, t: int, s: int)
    requires
        v.wf(),
        c2.wf(),
        t % 16 == 0,
        v.core.heap_top <= t,
        c2.heap_top == t + s,
        0 <= s,
    ensures
        (SegregatedView { core: c2, live: v.live.insert((t, s)), ..v }).wf(),
        forall|b: (int, int)| v.live.contains(b) ==> ranges_separate((t, s), b),
{
    let blk = (t, s);
    let v2 = SegregatedView { core: c2, live: v.live.insert(blk), ..v };
    lemma_seg_bins_frame(v, v2);
    assert forall|b: (int, int)| v.live.contains(b) implies ranges_separate(blk, b) by {
        assert(b.0 + b.1 <= v.core.heap_top);
    }
    assert forall|b: (int, int)| #[trigger] v2.live.contains(b) implies b.0 >= 0 && b.0 % 16 == 0
        && b.1 >= 0 && b.0 + b.1 <= v2.core.heap_top by {
        if b != blk {
            assert(v.live.contains(b));
        }
    }
    assert forall|a: (int, int), b: (int, int)|
        #[trigger] v2.live.contains(a) && #[trigger] v2.live.contains(b) && a != b
        implies ranges_separate(a, b) by {
        if a == blk {
            assert(v.live.contains(b));
        } else if b == blk {
            assert(v.live.contains(a));
        } else {
            assert(v.live.contains(a) && v.live.contains(b));
        }
    }
    assert forall|i: int, j: int, b: (int, int)|
        0 <= i < 4 && 0 <= j < v2.bins[i].len() && #[trigger] v2.live.contains(b)
        implies ranges_separate(#[trigger] v2.bin_block(i, j), b) by {
        if b == blk {
            assert(v.bins[i][j] + spec_bin_size(i) <= v.core.heap_top);
        } else {
            assert(v.live.contains(b));
            assert(ranges_separate(v.bin_block(i, j), b));
        }
    }
}

/// Popping the head of a bin and handing it out whole preserves the
/// invariant; the block is disjoint from every block that was live before.
proof fn lemma_seg_bin_pop_wf(v: SegregatedView, i: int)
    requires
        v.wf(),
        0 <= i < 4,
        v.bins[i].len() > 0,
    ensures
        (SegregatedView {
            bins: v.bins.update(i, v.bins[i].skip(1)),
            live: v.live.insert((v.bins[i][0], spec_bin_size(i))),
            ..v
        }).wf(),
        forall|b: (int, int)|
            v.live.contains(b) ==> ranges_separate((v.bins[i][0], spec_bin_size(i)), b),
        v.bins[i][0] % 16 == 0,
{
    let blk = (v.bins[i][0], spec_bin_size(i));
    let v2 = SegregatedView {
        bins: v.bins.update(i, v.bins[i].skip(1)),
        live: v.live.insert(blk),
        ..v
    };
    assert(blk == v.bin_block(i, 0));
    assert forall|b: (int, int)| v.live.contains(b) implies ranges_separate(blk, b) by {
        assert(ranges_separate(v.bin_block(i, 0), b));
    }
    assert forall|i1: int, j1: int|
        0 <= i1 < 4 && 0 <= j1 < v2.bins[i1].len() implies {
        let b = #[trigger] v2.bins[i1][j1];
        b >= 0 && b % 16 == 0 && b + spec_bin_size(i1) <= v2.core.heap_top
    } by {
        if i1 == i {
            assert(v2.bins[i1][j1] == v.bins[i1][j1 + 1]);
        } else {
            assert(v2.bins[i1][j1] == v.bins[i1][j1]);
        }
    }
    assert forall|i1: int, j1: int, i2: int, j2: int|
        0 <= i1 < 4 && 0 <= j1 < v2.bins[i1].len() && 0 <= i2 < 4 && 0 <= j2 < v2.bins[i2].len()
        && (i1 != i2 || j1 != j2) implies ranges_disjoint(
        #[trigger] v2.bin_block(i1, j1),
        #[trigger] v2.bin_block(i2, j2),
    ) by {
        let k1 = if i1 == i {
            j1 + 1
        } else {
            j1
        };
        let k2 = if i2 == i {
            j2 + 1
        } else {
            j2
        };
        assert(v2.bin_block(i1, j1) == v.bin_block(i1, k1));
        assert(v2.bin_block(i2, j2) == v.bin_block(i2, k2));
        assert(ranges_disjoint(v.bin_block(i1, k1), v.bin_block(i2, k2)));
    }
    assert forall|b: (int, int)| #[trigger] v2.live.contains(b) implies b.0 >= 0 && b.0 % 16 == 0
        && b.1 >= 0 && b.0 + b.1 <= v2.core.heap_top by {
        if b != blk {
            assert(v.live.contains(b));
        }
    }
    assert forall|a: (int, int), b: (int, int)|
        #[trigger] v2.live.contains(a) && #[trigger] v2.live.contains(b) && a != b
        implies ranges_separate(a, b) by {
        if a == blk {
            assert(v.live.contains(b));
            assert(ranges_separate(v.bin_block(i, 0), b));
        } else if b == blk {
            assert(v.live.contains(a));
            assert(ranges_separate(v.bin_block(i, 0), a));
        } else {
            assert(v.live.contains(a) && v.live.contains(b));
        }
    }
    assert forall|i1: int, j1: int, b: (int, int)|
        0 <= i1 < 4 && 0 <= j1 < v2.bins[i1].len() && #[trigger] v2.live.contains(b)
        implies ranges_separate(#[trigger] v2.bin_block(i1, j1), b) by {
        let k1 = if i1 == i {
            j1 + 1
        } else {
            j1
        };
        assert(v2.bin_block(i1, j1) == v.bin_block(i1, k1));
        if b == blk {
            assert(ranges_disjoint(v.bin_block(i1, k1), v.bin_block(i, 0)));
        } else {
            assert(v.live.contains(b));
            assert(ranges_separate(v.bin_block(i1, k1), b));
        }
    }
}

/// Pushing a released live block of the exact class size onto its bin
/// preserves the invariant.
proof fn lemma_seg_bin_push_wf(v: SegregatedView, i: int, addr: int)
    requires
        v.wf(),
        0 <= i < 4,
        v.live.contains((addr, spec_bin_size(i))),
    ensures
        (SegregatedView {
            bins: v.bins.update(i, seq![addr] + v.bins[i]),
            live: v.live.remove((addr, spec_bin_size(i))),
            ..v
        }).wf(),
{
    let blk = (addr, spec_bin_size(i));
    let v2 = SegregatedView {
        bins: v.bins.update(i, seq![addr] + v.bins[i]),
        live: v.live.remove(blk),
        ..v
    };
    assert forall|i1: int, j1: int|
        0 <= i1 < 4 && 0 <= j1 < v2.bins[i1].len() implies {
        let b = #[trigger] v2.bins[i1][j1];
        b >= 0 && b % 16 == 0 && b + spec_bin_size(i1) <= v2.core.heap_top
    } by {
        if i1 == i && j1 == 0 {
            assert(v2.bins[i1][j1] == addr);
        } else if i1 == i {
            assert(v2.bins[i1][j1] == v.bins[i1][j1 - 1]);
        } else {
            assert(v2.bins[i1][j1] == v.bins[i1][j1]);
        }
    }
    assert forall|i1: int, j1: int, i2: int, j2: int|
        0 <= i1 < 4 && 0 <= j1 < v2.bins[i1].len() && 0 <= i2 < 4 && 0 <= j2 < v2.bins[i2].len()
        && (i1 != i2 || j1 != j2) implies ranges_disjoint(
        #[trigger] v2.bin_block(i1, j1),
        #[trigger] v2.bin_block(i2, j2),
    ) by {
        if i1 == i && j1 == 0 {
            assert(v2.bin_block(i1, j1) == blk);
            let k2 = if i2 == i {
                j2 - 1
            } else {
                j2
            };
            assert(v2.bin_block(i2, j2) == v.bin_block(i2, k2));
            assert(ranges_separate(v.bin_block(i2, k2), blk));
        } else if i2 == i && j2 == 0 {
            assert(v2.bin_block(i2, j2) == blk);
            let k1 = if i1 == i {
                j1 - 1
            } else {
                j1
            };
            assert(v2.bin_block(i1, j1) == v.bin_block(i1, k1));
            assert(ranges_separate(v.bin_block(i1, k1), blk));
        } else {
            let k1 = if i1 == i {
                j1 - 1
            } else {
                j1
            };
            let k2 = if i2 == i {
                j2 - 1
            } else {
                j2
            };
            assert(v2.bin_block(i1, j1) == v.bin_block(i1, k1));
            assert(v2.bin_block(i2, j2) == v.bin_block(i2, k2));
            assert(ranges_disjoint(v.bin_block(i1, k1), v.bin_block(i2, k2)));
        }
    }
    assert forall|b: (int, int)| #[trigger] v2.live.contains(b) implies b.0 >= 0 && b.0 % 16 == 0
        && b.1 >= 0 && b.0 + b.1 <= v2.core.heap_top by {
        assert(v.live.contains(b));
    }
    assert forall|i1: int, j1: int, b: (int, int)|
        0 <= i1 < 4 && 0 <= j1 < v2.bins[i1].len() && #[trigger] v2.live.contains(b)
        implies ranges_separate(#[trigger] v2.bin_block(i1, j1), b) by {
        assert(v.live.contains(b));
        if i1 == i && j1 == 0 {
            assert(v2.bin_block(i1, j1) == blk);
            assert(b != blk);
            assert(ranges_separate(blk, b));
        } else {
            let k1 = if i1 == i {
                j1 - 1
            } else {
                j1
            };
            assert(v2.bin_block(i1, j1) == v.bin_block(i1, k1));
            assert(ranges_separate(v.bin_block(i1, k1), b));
        }
    }
}

/// Dropping a block from the live set preserves the invariant.
proof fn lemma_seg_live_remove_wf(v: SegregatedView, blk: (int, int))
    requires
        v.wf(),
    ensures
        (SegregatedView { live: v.live.remove(blk), ..v }).wf(),
{
    let v2 = SegregatedView { live: v.live.remove(blk), ..v };
    lemma_seg_bins_frame(v, v2);
    assert forall|b: (int, int)| #[trigger] v2.live.contains(b) implies b.0 >= 0 && b.0 % 16 == 0
        && b.1 >= 0 && b.0 + b.1 <= v2.core.heap_top by {
        assert(v.live.contains(b));
    }
    assert forall|a: (int, int), b: (int, int)|
        #[trigger] v2.live.contains(a) && #[trigger] v2.live.contains(b) && a != b
        implies ranges_separate(a, b) by {
        assert(v.live.contains(a) && v.live.contains(b));
    }
    assert forall|i1: int, j1: int, b: (int, int)|
        0 <= i1 < 4 && 0 <= j1 < v2.bins[i1].len() && #[trigger] v2.live.contains(b)
        implies ranges_separate(#[trigger] v2.bin_block(i1, j1), b) by {
        assert(v.live.contains(b));
        assert(ranges_separate(v.bin_block(i1, j1), b));
        assert(v2.bin_block(i1, j1) == v.bin_block(i1, j1));
    }
}

/// Resizing a live block in place preserves the invariant, provided the new
/// extent stays within the (possibly advanced) top of the heap, and either
/// the block shrinks or it ended exactly at the old top.
proof fn lemma_seg_resize_in_place_wf(
    v: SegregatedView,
    addr: int,
    old_s: int,
    new_s: int,
    c2: BumpCoreView,
)
    requires
        v.wf(),
        v.live.contains((addr, old_s)),
        0 <= new_s,
        addr + new_s <= c2.heap_top,
        c2.wf(),
        v.core.heap_top <= c2.heap_top,
        new_s <= old_s || addr + old_s == v.core.heap_top,
    ensures
        (SegregatedView {
            core: c2,
            live: v.live.remove((addr, old_s)).insert((addr, new_s)),
            ..v
        }).wf(),
{
    let old_blk = (addr, old_s);
    let new_blk = (addr, new_s);
    let v2 = SegregatedView { core: c2, live: v.live.remove(old_blk).insert(new_blk), ..v };
    lemma_seg_bins_frame(v, v2);
    assert forall|b: (int, int)|
        v.live.contains(b) && b != old_blk implies ranges_separate(new_blk, b) by {
        assert(ranges_separate(old_blk, b));
        assert(b.0 + b.1 <= v.core.heap_top);
    }
    assert forall|b: (int, int)| #[trigger] v2.live.contains(b) implies b.0 >= 0 && b.0 % 16 == 0
        && b.1 >= 0 && b.0 + b.1 <= v2.core.heap_top by {
        if b != new_blk {
            assert(v.live.contains(b));
        }
    }
    assert forall|a: (int, int), b: (int, int)|
        #[trigger] v2.live.contains(a) && #[trigger] v2.live.contains(b) && a != b
        implies ranges_separate(a, b) by {
        if a == new_blk {
            assert(v.live.contains(b) && b != old_blk);
        } else if b == new_blk {
            assert(v.live.contains(a) && a != old_blk);
        } else {
            assert(v.live.contains(a) && v.live.contains(b));
        }
    }
    assert forall|i1: int, j1: int, b: (int, int)|
        0 <= i1 < 4 && 0 <= j1 < v2.bins[i1].len() && #[trigger] v2.live.contains(b)
        implies ranges_separate(#[trigger] v2.bin_block(i1, j1), b) by {
        assert(v2.bin_block(i1, j1) == v.bin_block(i1, j1));
        if b == new_blk {
            assert(ranges_separate(v.bin_block(i1, j1), old_blk));
            assert(v.bins[i1][j1] + spec_bin_size(i1) <= v.core.heap_top);
        } else {
            assert(v.live.contains(b));
            assert(ranges_separate(v.bin_block(i1, j1), b));
        }
    }
}


/// Law: requests from different size classes are served from different bins;
/// releasing a binned block and requesting its class again hands the very
/// same address back.
pub proof fn lemma_bin_reuse(
    v: SegregatedView,
    addr: int,
    size: int,
    align: int,
    size2: int,
    align2: int,
)
    requires
        v.bins.len() == 4,
        align <= 16,
        align2 <= 16,
        size <= 128,
        size2 <= 128,
        spec_bin_index(if size < 16 { 16 } else { size }) == spec_bin_index(
            if size2 < 16 { 16 } else { size2 },
        ),
    ensures
        seg_alloc_spec(seg_dealloc_spec(v, addr, size, align), size2, align2).0 == Some(addr),
{
    let v2 = seg_dealloc_spec(v, addr, size, align);
    let s = if size < 16 { 16int } else { size };
    let i = spec_bin_index(s).unwrap() as int;
    assert(v2.bins[i] == seq![addr] + v.bins[i]);
    assert(v2.bins[i][0] == addr);
}

/// Law: a released large block is never handed out again — a fresh large
/// request is served strictly above it by the bump pointer.
pub proof fn lemma_large_not_reused(
    v: SegregatedView,
    addr: int,
    size: int,
    align: int,
    size2: int,
    align2: int,
)
    requires
        v.wf(),
        align <= 16,
        align2 <= 16,
        size > 128,
        size2 > 128,
        size2 <= MAX_MEMORY_BYTES,
        v.live.contains((addr, size)),
    ensures
        ({
            let v2 = seg_dealloc_spec(v, addr, size, align);
            match seg_alloc_spec(v2, size2, align2).0 {
                Some(t) => t > addr,
                None => true,
            }
        }),
{
    let v2 = seg_dealloc_spec(v, addr, size, align);
    lemma_bump_step_props(v2.core, size2, 16);
    assert(addr + size <= v.core.heap_top);
}

/// Law: the outcome of every operation depends on the bookkeeping state
/// alone, so after a reset the first allocation lands on the same address as
/// after any other reset.
pub proof fn lemma_reset_repeats_first_address(
    v1: SegregatedView,
    v2: SegregatedView,
    size: int,
    align: int,
)
    requires
        v1 == seg_fresh(),
        v2 == seg_fresh(),
    ensures
        seg_alloc_spec(v1, size, align) == seg_alloc_spec(v2, size, align),
{
}


/// Law: an allocation comes back empty only when its bin is empty (or the
/// request bypasses the bins) and the bump path's growth fails.
pub proof fn lemma_alloc_failure_is_growth_failure(v: SegregatedView, size: int, align: int)
    ensures
        seg_alloc_spec(v, size, align).0 is None ==> (if align > 16 {
            bump_step(v.core, size, align).0 is None
        } else {
            let s = if size < 16 {
                16int
            } else {
                size
            };
            match spec_bin_index(s) {
                Some(iu) => v.bins[iu as int].len() == 0 && bump_step(
                    v.core,
                    spec_bin_size(iu as int),
                    16,
                ).0 is None,
                None => bump_step(v.core, s, 16).0 is None,
            }
        }),
{
}

} // verus!
