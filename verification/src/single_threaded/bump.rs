//! The shared bump-pointer and page-growth protocol.
//!
//! Both the bump+free-list strategy and the segregated-bins strategy hand out
//! fresh blocks by advancing a top-of-heap address through a claimed region,
//! and extend that region through the page-growth primitive when it runs out.
//! The protocol lives here once, with an exact transition specification.

use crate::memory::{LinearMemory, GROW_FAILED};
use crate::single_threaded::sizes::{
    is_pow2, lemma_multiple_below_props, lemma_pages_for_props, lemma_round_up_props, round_up,
    spec_pages_for, spec_round_up,
};
use vstd::arithmetic::div_mod::{
    lemma_fundamental_div_mod, lemma_mod_multiples_vanish, lemma_small_mod,
};
use crate::{MAX_MEMORY_BYTES, MAX_PAGES, PAGE_SIZE};
use vstd::prelude::*;

verus! {

/// The mathematical state of a bump region.
#[verifier::ext_equal]
pub struct BumpCoreView {
    /// Next unused address in the claimed region.
    pub heap_top: int,
    /// End of the claimed region; always the current extent of the memory.
    pub heap_end: int,
    /// The bytes of the linear memory.
    pub mem: Seq<u8>,
}

impl BumpCoreView {
    /// Boundaries in range: `heap_top <= heap_end`, and `heap_end` is the
    /// page-aligned extent of the memory.
    pub open spec fn wf(self) -> bool {
        &&& 0 <= self.heap_top <= self.heap_end
        &&& self.heap_end == self.mem.len()
        &&& self.mem.len() as int % (PAGE_SIZE as int) == 0
        &&& self.mem.len() <= MAX_MEMORY_BYTES
    }
}

/// What one bump allocation of `s` bytes aligned to `align` does: the result
/// address (`None` on growth failure) and the state after.
pub open spec fn bump_step(v: BumpCoreView, s: int, align: int) -> (Option<int>, BumpCoreView) {
    let t = spec_round_up(v.heap_top, align);
    if t + s <= v.heap_end {
        (Some(t), BumpCoreView { heap_top: t + s, ..v })
    } else {
        let pages = spec_pages_for(t + s - v.heap_end);
        if v.heap_end / (PAGE_SIZE as int) + pages > MAX_PAGES {
            (None, v)
        } else {
            (
                Some(t),
                BumpCoreView {
                    heap_top: t + s,
                    heap_end: v.heap_end + pages * PAGE_SIZE,
                    mem: v.mem + Seq::new((pages * PAGE_SIZE) as nat, |i: int| 0u8),
                },
            )
        }
    }
}

/// What extending the most recent allocation by `diff` bytes in place does:
/// whether it succeeded, and the state after.
pub open spec fn bump_extend(v: BumpCoreView, diff: int) -> (bool, BumpCoreView) {
    if v.heap_top + diff <= v.heap_end {
        (true, BumpCoreView { heap_top: v.heap_top + diff, ..v })
    } else {
        let pages = spec_pages_for(v.heap_top + diff - v.heap_end);
        if v.heap_end / (PAGE_SIZE as int) + pages > MAX_PAGES {
            (false, v)
        } else {
            (
                true,
                BumpCoreView {
                    heap_top: v.heap_top + diff,
                    heap_end: v.heap_end + pages * PAGE_SIZE,
                    mem: v.mem + Seq::new((pages * PAGE_SIZE) as nat, |i: int| 0u8),
                },
            )
        }
    }
}

/// What every caller of `bump_step` leans on: a fresh block begins at the
/// aligned former top, ends at the new top within the claimed region, and the
/// old bytes are undisturbed; a failure changes nothing.
pub proof fn lemma_bump_step_props(v: BumpCoreView, s: int, align: int)
    requires
        v.wf(),
        0 <= s <= MAX_MEMORY_BYTES,
        align >= 1,
    ensures
        ({
            let (rr, v2) = bump_step(v, s, align);
            &&& v2.wf()
            &&& v2.heap_top >= v.heap_top
            &&& v2.heap_end >= v.heap_end
            &&& v.mem.len() <= v2.mem.len()
            &&& v2.mem.take(v.mem.len() as int) == v.mem
            &&& match rr {
                Some(t) => {
                    &&& t == spec_round_up(v.heap_top, align)
                    &&& t % align == 0
                    &&& v.heap_top <= t
                    &&& v2.heap_top == t + s
                    &&& t + s <= v2.heap_end
                },
                None => v2 == v,
            }
        }),
{
    lemma_round_up_props(v.heap_top, align);
    let t = spec_round_up(v.heap_top, align);
    if t + s <= v.heap_end {
        assert(bump_step(v, s, align).1.mem.take(v.mem.len() as int) =~= v.mem);
    } else {
        let needed = t + s - v.heap_end;
        lemma_pages_for_props(needed);
        let pages = spec_pages_for(needed);
        let endpages = v.heap_end / (PAGE_SIZE as int);
        if endpages + pages > MAX_PAGES {
        } else {
            let v2 = bump_step(v, s, align).1;
            assert(v2.mem.take(v.mem.len() as int) =~= v.mem);
            assert(v2.mem.len() == v.mem.len() + pages * PAGE_SIZE);
            assert(v2.mem.len() as int % (PAGE_SIZE as int) == 0) by {
                lemma_mod_multiples_vanish(pages, v.mem.len() as int, PAGE_SIZE as int);
                assert(pages * PAGE_SIZE + v.mem.len() as int == (PAGE_SIZE as int) * pages
                    + v.mem.len() as int) by (nonlinear_arith);
            }
            assert(endpages * PAGE_SIZE == v.heap_end) by {
                lemma_fundamental_div_mod(v.heap_end, PAGE_SIZE as int);
                assert((PAGE_SIZE as int) * endpages == endpages * (PAGE_SIZE as int))
                    by (nonlinear_arith);
            }
            assert(v2.mem.len() == (endpages + pages) * PAGE_SIZE) by (nonlinear_arith)
                requires
                    v2.mem.len() == endpages * PAGE_SIZE + pages * PAGE_SIZE,
            ;
            assert((endpages + pages) * PAGE_SIZE <= MAX_PAGES * PAGE_SIZE) by (nonlinear_arith)
                requires
                    endpages + pages <= MAX_PAGES,
                    PAGE_SIZE > 0,
            ;
        }
    }
}

/// The same properties for `bump_extend`.
pub proof fn lemma_bump_extend_props(v: BumpCoreView, diff: int)
    requires
        v.wf(),
        0 <= diff <= MAX_MEMORY_BYTES,
    ensures
        ({
            let (rr, v2) = bump_extend(v, diff);
            &&& v2.wf()
            &&& v2.heap_end >= v.heap_end
            &&& v.mem.len() <= v2.mem.len()
            &&& v2.mem.take(v.mem.len() as int) == v.mem
            &&& if rr {
                v2.heap_top == v.heap_top + diff && v2.heap_top <= v2.heap_end
            } else {
                v2 == v
            }
        }),
{
    if v.heap_top + diff <= v.heap_end {
        assert(bump_extend(v, diff).1.mem.take(v.mem.len() as int) =~= v.mem);
    } else {
        let needed = v.heap_top + diff - v.heap_end;
        lemma_pages_for_props(needed);
        let pages = spec_pages_for(needed);
        let endpages = v.heap_end / (PAGE_SIZE as int);
        if endpages + pages > MAX_PAGES {
        } else {
            let v2 = bump_extend(v, diff).1;
            assert(v2.mem.take(v.mem.len() as int) =~= v.mem);
            assert(v2.mem.len() as int % (PAGE_SIZE as int) == 0) by {
                lemma_mod_multiples_vanish(pages, v.mem.len() as int, PAGE_SIZE as int);
                assert(pages * PAGE_SIZE + v.mem.len() as int == (PAGE_SIZE as int) * pages
                    + v.mem.len() as int) by (nonlinear_arith);
            }
            assert(endpages * PAGE_SIZE == v.heap_end) by {
                lemma_fundamental_div_mod(v.heap_end, PAGE_SIZE as int);
                assert((PAGE_SIZE as int) * endpages == endpages * (PAGE_SIZE as int))
                    by (nonlinear_arith);
            }
            assert(v2.mem.len() == (endpages + pages) * PAGE_SIZE) by (nonlinear_arith)
                requires
                    v2.mem.len() == endpages * PAGE_SIZE + pages * PAGE_SIZE,
            ;
            assert((endpages + pages) * PAGE_SIZE <= MAX_PAGES * PAGE_SIZE) by (nonlinear_arith)
                requires
                    endpages + pages <= MAX_PAGES,
                    PAGE_SIZE > 0,
            ;
        }
    }
}

/// A request larger than the whole address space always fails: growth can
/// never cover it, and nothing changes.
pub proof fn lemma_bump_step_hopeless(v: BumpCoreView, s: int, align: int)
    requires
        v.wf(),
        s > MAX_MEMORY_BYTES,
        align >= 1,
    ensures
        bump_step(v, s, align) == (None::<int>, v),
{
    lemma_round_up_props(v.heap_top, align);
    let t = spec_round_up(v.heap_top, align);
    let needed = t + s - v.heap_end;
    lemma_pages_for_props(needed);
    let pages = spec_pages_for(needed);
    let endpages = v.heap_end / (PAGE_SIZE as int);
    assert(endpages * PAGE_SIZE == v.heap_end) by {
        lemma_fundamental_div_mod(v.heap_end, PAGE_SIZE as int);
        assert((PAGE_SIZE as int) * endpages == endpages * (PAGE_SIZE as int)) by (nonlinear_arith);
    }
    assert(pages * PAGE_SIZE > MAX_PAGES * PAGE_SIZE - endpages * PAGE_SIZE);
    assert(pages + endpages > MAX_PAGES) by (nonlinear_arith)
        requires
            pages * PAGE_SIZE > MAX_PAGES * PAGE_SIZE - endpages * PAGE_SIZE,
            PAGE_SIZE > 0,
    ;
}

/// The same for extending: a top of heap past the whole address space can
/// never be reached.
pub proof fn lemma_bump_extend_hopeless(v: BumpCoreView, diff: int)
    requires
        v.wf(),
        v.heap_top + diff > MAX_MEMORY_BYTES,
    ensures
        bump_extend(v, diff) == (false, v),
{
    let needed = v.heap_top + diff - v.heap_end;
    lemma_pages_for_props(needed);
    let pages = spec_pages_for(needed);
    let endpages = v.heap_end / (PAGE_SIZE as int);
    assert(endpages * PAGE_SIZE == v.heap_end) by {
        lemma_fundamental_div_mod(v.heap_end, PAGE_SIZE as int);
        assert((PAGE_SIZE as int) * endpages == endpages * (PAGE_SIZE as int)) by (nonlinear_arith);
    }
    assert(pages * PAGE_SIZE > MAX_PAGES * PAGE_SIZE - endpages * PAGE_SIZE);
    assert(pages + endpages > MAX_PAGES) by (nonlinear_arith)
        requires
            pages * PAGE_SIZE > MAX_PAGES * PAGE_SIZE - endpages * PAGE_SIZE,
            PAGE_SIZE > 0,
    ;
}

/// A bump region: the claimed slice of linear memory and the top-of-heap
/// address within it. Both start at 0, meaning nothing claimed.
pub struct BumpCore {
    pub memory: LinearMemory,
    pub heap_top: usize,
    pub heap_end: usize,
}

impl View for BumpCore {
    type V = BumpCoreView;

    open spec fn view(&self) -> BumpCoreView {
        BumpCoreView {
            heap_top: self.heap_top as int,
            heap_end: self.heap_end as int,
            mem: self.memory@,
        }
    }
}

/// The fresh bump region: nothing claimed.
pub open spec fn bump_fresh() -> BumpCoreView {
    BumpCoreView { heap_top: 0, heap_end: 0, mem: Seq::<u8>::empty() }
}

impl BumpCore {
    /// A fresh bump region over a fresh linear memory.
    pub fn new() -> (r: BumpCore)
        ensures
            r@ == bump_fresh(),
            r@.wf(),
    {
        let r = BumpCore { memory: LinearMemory::new(), heap_top: 0, heap_end: 0 };
        proof {
            assert(r@ =~= bump_fresh());
        }
        r
    }

    /// Advances the top of the heap past a fresh block of `size` bytes
    /// aligned to `align`, growing the claimed region by whole pages when it
    /// is too small. Returns the block's address, or `None` when growth
    /// fails, in which case nothing changes.
    pub fn bump_alloc(&mut self, size: usize, align: usize) -> (r: Option<usize>)
        requires
            old(self)@.wf(),
            is_pow2(align),
            size <= MAX_MEMORY_BYTES,
        ensures
            final(self)@.wf(),
            ({
                let (rr, v2) = bump_step(old(self)@, size as int, align as int);
                &&& final(self)@ == v2
                &&& match (r, rr) {
                    (Some(a), Some(b)) => a as int == b,
                    (None, None) => true,
                    _ => false,
                }
            }),
    {
        if align > MAX_MEMORY_BYTES && self.heap_top > 0 {
            // An alignment beyond the whole address space can only be met at
            // address 0; growth can never cover it.
            proof {
                lemma_small_mod(self.heap_top as nat, align as nat);
                let t = spec_round_up(self.heap_top as int, align as int);
                assert(t == align);
                let needed = t + size - self.heap_end as int;
                lemma_pages_for_props(needed);
                let pages = spec_pages_for(needed);
                let endpages = self.heap_end as int / (PAGE_SIZE as int);
                assert(endpages * PAGE_SIZE == self.heap_end as int) by {
                    lemma_fundamental_div_mod(self.heap_end as int, PAGE_SIZE as int);
                    assert((PAGE_SIZE as int) * endpages == endpages * (PAGE_SIZE as int))
                        by (nonlinear_arith);
                }
                assert(pages * PAGE_SIZE > MAX_PAGES * PAGE_SIZE - endpages * PAGE_SIZE);
                assert(pages + endpages > MAX_PAGES) by (nonlinear_arith)
                    requires
                        pages * PAGE_SIZE > MAX_PAGES * PAGE_SIZE - endpages * PAGE_SIZE,
                        PAGE_SIZE > 0,
                ;
            }
            return None;
        }
        proof {
            lemma_round_up_props(self.heap_top as int, align as int);
        }
        let t = round_up(self.heap_top, align);
        if size <= self.heap_end && t <= self.heap_end - size {
            self.heap_top = t + size;
            proof {
                assert(self@ =~= bump_step(old(self)@, size as int, align as int).1);
            }
            return Some(t);
        }
        proof {
            if self.heap_top == 0 {
                lemma_small_mod(0nat, align as nat);
                assert(t == 0);
            }
        }
        let needed = t + size - self.heap_end;
        proof {
            lemma_pages_for_props(needed as int);
        }
        let pages_raw = (needed + (PAGE_SIZE - 1)) / PAGE_SIZE;
        let pages = if pages_raw < 1 {
            1
        } else {
            pages_raw
        };
        proof {
            lemma_multiple_below_props(needed as int + PAGE_SIZE - 1, PAGE_SIZE as int);
            assert(pages as int == spec_pages_for(needed as int));
            assert(self.memory.pages() * PAGE_SIZE == self.memory@.len()) by {
                lemma_multiple_below_props(self.memory@.len() as int, PAGE_SIZE as int);
            }
        }
        let prev = self.memory.grow_memory(pages);
        if prev == GROW_FAILED {
            proof {
                assert(self@ =~= old(self)@);
                assert(self.memory.pages() + pages > MAX_PAGES);
            }
            return None;
        }
        self.heap_end = self.heap_end + pages * PAGE_SIZE;
        self.heap_top = t + size;
        proof {
            assert(self@ =~= bump_step(old(self)@, size as int, align as int).1);
        }
        Some(t)
    }

    /// Moves the top of the heap `diff` bytes further, growing the claimed
    /// region when needed. Returns whether it succeeded; on failure nothing
    /// changes.
    pub fn bump_extend(&mut self, diff: usize) -> (r: bool)
        requires
            old(self)@.wf(),
            diff <= MAX_MEMORY_BYTES,
        ensures
            final(self)@.wf(),
            ({
                let (rr, v2) = bump_extend(old(self)@, diff as int);
                &&& final(self)@ == v2
                &&& r == rr
            }),
    {
        if diff <= self.heap_end - self.heap_top {
            self.heap_top = self.heap_top + diff;
            proof {
                assert(self@ =~= bump_extend(old(self)@, diff as int).1);
            }
            return true;
        }
        let needed = self.heap_top + diff - self.heap_end;
        proof {
            lemma_pages_for_props(needed as int);
        }
        let pages_raw = (needed + (PAGE_SIZE - 1)) / PAGE_SIZE;
        let pages = if pages_raw < 1 {
            1
        } else {
            pages_raw
        };
        proof {
            lemma_multiple_below_props(needed as int + PAGE_SIZE - 1, PAGE_SIZE as int);
            assert(pages as int == spec_pages_for(needed as int));
            assert(self.memory.pages() * PAGE_SIZE == self.memory@.len()) by {
                lemma_multiple_below_props(self.memory@.len() as int, PAGE_SIZE as int);
            }
        }
        let prev = self.memory.grow_memory(pages);
        if prev == GROW_FAILED {
            proof {
                assert(self@ =~= old(self)@);
            }
            return false;
        }
        self.heap_end = self.heap_end + pages * PAGE_SIZE;
        self.heap_top = self.heap_top + diff;
        proof {
            assert(self@ =~= bump_extend(old(self)@, diff as int).1);
        }
        true
    }
}

} // verus!
