//! Address-ordered, coalescing free list allocator.
//!
//! The chain keeps released blocks sorted by strictly decreasing address, and
//! no two chained blocks are ever physically adjacent: every release merges
//! with its neighbours on the spot, in both directions. Allocation is
//! first-fit; a block larger than the request is split, keeping the
//! low-address part chained. When nothing fits, whole pages are claimed from
//! the growth primitive, chained as one block, and the search runs once more.
//!
//! Releasing a block with a descriptor other than the one it was allocated
//! with, or releasing it twice, is a contract violation; the preconditions
//! of `deallocate` and `reallocate` state this through the set of live
//! blocks.

use crate::memory::{copy_region, LinearMemory, GROW_FAILED};
use crate::single_threaded::blocks::{
    block_wf, blocks_view, covers, find_fit, lemma_blocks_view_insert, lemma_blocks_view_remove,
    lemma_blocks_view_push, lemma_blocks_view_update, lemma_find_fit_characterization,
    ranges_disjoint, scan_first_fit, seq_blocks_wf, seq_set_disjoint, set_blocks_disjoint,
    set_blocks_wf, FreeBlock,
};
use crate::single_threaded::sizes::{
    full_size, is_pow2, lemma_align16_covers, lemma_full_size_props, lemma_mod_trans,
    lemma_round_up_props, round_up, spec_full_size, spec_round_up,
};
use crate::{MAX_MEMORY_BYTES, MAX_PAGES, PAGE_SIZE};
use vstd::prelude::*;

verus! {

/// Sorted by strictly decreasing address, with no two blocks adjacent: the
/// next block ends strictly below the start of the current one.
pub open spec fn fl_sorted(l: Seq<(int, int)>) -> bool {
    forall|i: int| 0 <= i < l.len() - 1 ==> l[i + 1].0 + l[i + 1].1 < #[trigger] l[i].0
}

/// Whether byte `x` lies in one of the blocks of the set.
pub open spec fn in_live(s: Set<(int, int)>, x: int) -> bool {
    exists|b: (int, int)| #[trigger] s.contains(b) && b.0 <= x < b.0 + b.1
}

/// What releasing block `(a, s)` does to the chain: the chain is walked from
/// the highest address down; the block merges with the chained block just
/// above it, just below it, or both, and is linked as a block of its own only
/// when no neighbour touches it.
pub open spec fn insert_free(l: Seq<(int, int)>, a: int, s: int) -> Seq<(int, int)>
    decreases l.len(),
{
    if l.len() == 0 {
        seq![(a, s)]
    } else if l[0].0 == a + s {
        let merged = s + l[0].1;
        if l.len() >= 2 && l[1].0 + l[1].1 == a {
            seq![(l[1].0, l[1].1 + merged)] + l.skip(2)
        } else {
            seq![(a, merged)] + l.skip(1)
        }
    } else if l[0].0 < a {
        if l[0].0 + l[0].1 == a {
            seq![(l[0].0, l[0].1 + s)] + l.skip(1)
        } else {
            seq![(a, s)] + l
        }
    } else {
        seq![l[0]] + insert_free(l.skip(1), a, s)
    }
}

/// The index of the chained block starting exactly at `target`, walking from
/// the highest address down and giving up once the addresses drop below it.
pub open spec fn find_addr(l: Seq<(int, int)>, target: int) -> Option<int>
    decreases l.len(),
{
    if l.len() == 0 {
        None
    } else if l[0].0 == target {
        Some(0)
    } else if l[0].0 < target {
        None
    } else {
        match find_addr(l.skip(1), target) {
            Some(i) => Some(i + 1),
            None => None,
        }
    }
}

/// A byte is covered by the head block or by the rest of the chain.
proof fn lemma_covers_unfold(l: Seq<(int, int)>, x: int)
    requires
        l.len() > 0,
    ensures
        covers(l, x) <==> ((l[0].0 <= x < l[0].0 + l[0].1) || covers(l.skip(1), x)),
{
    if covers(l, x) {
        let i = choose|i: int| 0 <= i < l.len() && (#[trigger] l[i]).0 <= x < l[i].0 + l[i].1;
        if i > 0 {
            assert(l.skip(1)[i - 1] == l[i]);
        }
    }
    if covers(l.skip(1), x) {
        let i = choose|i: int|
            0 <= i < l.skip(1).len() && (#[trigger] l.skip(1)[i]).0 <= x < l.skip(1)[i].0
                + l.skip(1)[i].1;
        assert(l[i + 1] == l.skip(1)[i]);
    }
}

/// The characteristic properties of `insert_free`: the blocks stay in good
/// standing, sorted and non-adjacent; the bytes covered are exactly the old
/// ones plus the released block; some block now holds at least `s` bytes; and
/// the highest block ends no higher than before (or at the released block's
/// end).
#[verifier::rlimit(100)]
#[verifier::spinoff_prover]
proof fn lemma_insert_free_props(l: Seq<(int, int)>, a: int, s: int, limit: int)
    requires
        seq_blocks_wf(l, limit),
        fl_sorted(l),
        block_wf((a, s), limit),
        forall|i: int| 0 <= i < l.len() ==> ranges_disjoint(#[trigger] l[i], (a, s)),
    ensures
        seq_blocks_wf(insert_free(l, a, s), limit),
        fl_sorted(insert_free(l, a, s)),
        forall|x: int|
            #![trigger covers(insert_free(l, a, s), x)]
            covers(insert_free(l, a, s), x) <==> (covers(l, x) || (a <= x < a + s)),
        exists|i: int|
            0 <= i < insert_free(l, a, s).len() && (#[trigger] insert_free(l, a, s)[i]).1 >= s,
        insert_free(l, a, s).len() >= 1,
        insert_free(l, a, s)[0].0 + insert_free(l, a, s)[0].1 <= if l.len() == 0 {
            a + s
        } else if a + s > l[0].0 + l[0].1 {
            a + s
        } else {
            l[0].0 + l[0].1
        },
    decreases l.len(),
{
    let r = insert_free(l, a, s);
    if l.len() == 0 {
        assert(r[0] == (a, s));
        assert forall|x: int| covers(r, x) <==> (covers(l, x) || (a <= x < a + s)) by {
            lemma_covers_unfold(r, x);
            assert(r.skip(1) =~= Seq::<(int, int)>::empty());
        }
    } else if l[0].0 == a + s {
        let merged = s + l[0].1;
        if l.len() >= 2 && l[1].0 + l[1].1 == a {
            let node = (l[1].0, l[1].1 + merged);
            assert(r =~= seq![node] + l.skip(2));
            assert(r[0] == node);
            assert forall|j: int| 0 <= j < r.len() implies block_wf(#[trigger] r[j], limit) by {
                if j > 0 {
                    assert(r[j] == l[j + 1]);
                }
            }
            assert forall|j: int| 0 <= j < r.len() - 1 implies r[j + 1].0 + r[j + 1].1 < (
            #[trigger] r[j]).0 by {
                if j == 0 {
                    assert(r[1] == l[2]);
                    assert(l[2].0 + l[2].1 < l[1].0);
                } else {
                    assert(r[j] == l[j + 1] && r[j + 1] == l[j + 2]);
                    assert(l[j + 2].0 + l[j + 2].1 < l[j + 1].0);
                }
            }
            assert forall|x: int| covers(r, x) <==> (covers(l, x) || (a <= x < a + s)) by {
                lemma_covers_unfold(r, x);
                assert(r.skip(1) =~= l.skip(2));
                lemma_covers_unfold(l, x);
                lemma_covers_unfold(l.skip(1), x);
                assert(l.skip(1).skip(1) =~= l.skip(2));
                assert(l.skip(1)[0] == l[1]);
            }
            assert(r[0].1 >= s);
        } else {
            let node = (a, merged);
            assert(r =~= seq![node] + l.skip(1));
            assert forall|j: int| 0 <= j < r.len() implies block_wf(#[trigger] r[j], limit) by {
                if j > 0 {
                    assert(r[j] == l[j]);
                }
            }
            assert forall|j: int| 0 <= j < r.len() - 1 implies r[j + 1].0 + r[j + 1].1 < (
            #[trigger] r[j]).0 by {
                if j == 0 {
                    assert(r[1] == l[1]);
                    assert(l[1].0 + l[1].1 < l[0].0);
                    assert(ranges_disjoint(l[1], (a, s)));
                    if l.len() >= 2 {
                        assert(l[1].0 + l[1].1 != a);
                    }
                } else {
                    assert(r[j] == l[j] && r[j + 1] == l[j + 1]);
                    assert(l[j + 1].0 + l[j + 1].1 < l[j].0);
                }
            }
            assert forall|x: int| covers(r, x) <==> (covers(l, x) || (a <= x < a + s)) by {
                lemma_covers_unfold(r, x);
                assert(r.skip(1) =~= l.skip(1));
                lemma_covers_unfold(l, x);
            }
            assert(r[0].1 >= s);
        }
    } else if l[0].0 < a {
        assert(ranges_disjoint(l[0], (a, s)));
        if l[0].0 + l[0].1 == a {
            let node = (l[0].0, l[0].1 + s);
            assert(r =~= seq![node] + l.skip(1));
            assert forall|j: int| 0 <= j < r.len() implies block_wf(#[trigger] r[j], limit) by {
                if j > 0 {
                    assert(r[j] == l[j]);
                }
            }
            assert forall|j: int| 0 <= j < r.len() - 1 implies r[j + 1].0 + r[j + 1].1 < (
            #[trigger] r[j]).0 by {
                if j == 0 {
                    assert(r[1] == l[1]);
                    assert(l[1].0 + l[1].1 < l[0].0);
                } else {
                    assert(r[j] == l[j] && r[j + 1] == l[j + 1]);
                    assert(l[j + 1].0 + l[j + 1].1 < l[j].0);
                }
            }
            assert forall|x: int| covers(r, x) <==> (covers(l, x) || (a <= x < a + s)) by {
                lemma_covers_unfold(r, x);
                assert(r.skip(1) =~= l.skip(1));
                lemma_covers_unfold(l, x);
            }
            assert(r[0].1 >= s);
        } else {
            assert(r =~= seq![(a, s)] + l);
            assert forall|j: int| 0 <= j < r.len() implies block_wf(#[trigger] r[j], limit) by {
                if j > 0 {
                    assert(r[j] == l[j - 1]);
                }
            }
            assert forall|j: int| 0 <= j < r.len() - 1 implies r[j + 1].0 + r[j + 1].1 < (
            #[trigger] r[j]).0 by {
                if j == 0 {
                    assert(r[1] == l[0]);
                    assert(l[0].0 + l[0].1 <= a);
                } else {
                    assert(r[j] == l[j - 1] && r[j + 1] == l[j]);
                    assert(l[j].0 + l[j].1 < l[j - 1].0);
                }
            }
            assert forall|x: int| covers(r, x) <==> (covers(l, x) || (a <= x < a + s)) by {
                lemma_covers_unfold(r, x);
                assert(r.skip(1) =~= l);
            }
            assert(r[0].1 >= s);
        }
    } else {
        // The head lies strictly above the released block: recurse past it.
        assert(ranges_disjoint(l[0], (a, s)));
        assert(l[0].0 > a + s);
        let t = l.skip(1);
        assert forall|i: int| 0 <= i < t.len() implies ranges_disjoint(#[trigger] t[i], (a, s)) by {
            assert(t[i] == l[i + 1]);
        }
        assert forall|i: int| 0 <= i < t.len() implies block_wf(#[trigger] t[i], limit) by {
            assert(t[i] == l[i + 1]);
        }
        assert forall|i: int| 0 <= i < t.len() - 1 implies t[i + 1].0 + t[i + 1].1 < (
        #[trigger] t[i]).0 by {
            assert(t[i] == l[i + 1] && t[i + 1] == l[i + 2]);
            assert(l[i + 2].0 + l[i + 2].1 < l[i + 1].0);
        }
        lemma_insert_free_props(t, a, s, limit);
        let rt = insert_free(t, a, s);
        assert(r =~= seq![l[0]] + rt);
        assert forall|j: int| 0 <= j < r.len() implies block_wf(#[trigger] r[j], limit) by {
            if j > 0 {
                assert(r[j] == rt[j - 1]);
            }
        }
        assert(rt[0].0 + rt[0].1 <= if t.len() == 0 {
            a + s
        } else if a + s > t[0].0 + t[0].1 {
            a + s
        } else {
            t[0].0 + t[0].1
        });
        assert forall|j: int| 0 <= j < r.len() - 1 implies r[j + 1].0 + r[j + 1].1 < (
        #[trigger] r[j]).0 by {
            if j == 0 {
                assert(r[1] == rt[0]);
                if t.len() > 0 {
                    assert(t[0] == l[1]);
                    assert(l[1].0 + l[1].1 < l[0].0);
                }
            } else {
                assert(r[j] == rt[j - 1] && r[j + 1] == rt[j]);
                assert(rt[j].0 + rt[j].1 < rt[j - 1].0);
            }
        }
        assert forall|x: int| covers(r, x) <==> (covers(l, x) || (a <= x < a + s)) by {
            lemma_covers_unfold(r, x);
            assert(r.skip(1) =~= rt);
            lemma_covers_unfold(l, x);
            assert(covers(rt, x) <==> (covers(t, x) || (a <= x < a + s)));
        }
        let iw = choose|i: int| 0 <= i < rt.len() && (#[trigger] rt[i]).1 >= s;
        assert(r[iw + 1] == rt[iw]);
        assert(r[iw + 1].1 >= s);
    }
}

/// Walking past the blocks above the released one does not change what the
/// release does.
proof fn lemma_insert_free_unfold(l: Seq<(int, int)>, a: int, s: int, k: int)
    requires
        0 <= k <= l.len(),
        s >= 0,
        forall|j: int| 0 <= j < k ==> (#[trigger] l[j]).0 > a + s,
    ensures
        insert_free(l, a, s) == l.take(k) + insert_free(l.skip(k), a, s),
    decreases k,
{
    if k == 0 {
        assert(l.skip(0) =~= l);
        assert(l.take(0) + insert_free(l.skip(0), a, s) =~= insert_free(l, a, s));
    } else {
        assert(l[0].0 > a + s);
        let t = l.skip(1);
        assert(insert_free(l, a, s) == seq![l[0]] + insert_free(t, a, s));
        assert forall|j: int| 0 <= j < k - 1 implies (#[trigger] t[j]).0 > a + s by {
            assert(t[j] == l[j + 1]);
        }
        lemma_insert_free_unfold(t, a, s, k - 1);
        assert(t.skip(k - 1) =~= l.skip(k));
        assert(insert_free(l, a, s) == seq![l[0]] + (t.take(k - 1) + insert_free(l.skip(k), a, s)));
        assert(seq![l[0]] + (t.take(k - 1) + insert_free(l.skip(k), a, s)) =~= l.take(k)
            + insert_free(l.skip(k), a, s));
    }
}

/// `find_addr` returns the block starting exactly at `target`, and `None`
/// exactly when a sorted chain has no such block.
proof fn lemma_find_addr_characterization(l: Seq<(int, int)>, target: int)
    requires
        fl_sorted(l),
        seq_blocks_wf_weak(l),
    ensures
        match find_addr(l, target) {
            Some(i) => 0 <= i < l.len() && l[i].0 == target && (forall|j: int|
                0 <= j < i ==> (#[trigger] l[j]).0 > target),
            None => forall|j: int| 0 <= j < l.len() ==> (#[trigger] l[j]).0 != target,
        },
    decreases l.len(),
{
    if l.len() == 0 {
    } else if l[0].0 == target {
    } else if l[0].0 < target {
        assert forall|j: int| 0 <= j < l.len() implies (#[trigger] l[j]).0 != target by {
            if j > 0 {
                assert(l[j].0 < l[0].0) by {
                    lemma_fl_sorted_ordered(l, 0, j);
                }
            }
        }
    } else {
        let t = l.skip(1);
        assert forall|i: int| 0 <= i < t.len() - 1 implies t[i + 1].0 + t[i + 1].1 < (
        #[trigger] t[i]).0 by {
            assert(t[i] == l[i + 1] && t[i + 1] == l[i + 2]);
            assert(l[i + 2].0 + l[i + 2].1 < l[i + 1].0);
        }
        assert forall|i: int| 0 <= i < t.len() implies (#[trigger] t[i]).1 >= 0 by {
            assert(t[i] == l[i + 1]);
        }
        lemma_find_addr_characterization(t, target);
        match find_addr(t, target) {
            Some(i) => {
                assert(l[i + 1] == t[i]);
                assert forall|j: int| 0 <= j < i + 1 implies (#[trigger] l[j]).0 > target by {
                    if j > 0 {
                        assert(t[j - 1] == l[j]);
                    }
                }
            },
            None => {
                assert forall|j: int| 0 <= j < l.len() implies (#[trigger] l[j]).0 != target by {
                    if j > 0 {
                        assert(t[j - 1] == l[j]);
                    }
                }
            },
        }
    }
}

/// In a sorted chain, addresses strictly decrease with the index.
proof fn lemma_fl_sorted_ordered(l: Seq<(int, int)>, i: int, j: int)
    requires
        fl_sorted(l),
        seq_blocks_wf_weak(l),
        0 <= i < j < l.len(),
    ensures
        l[j].0 + l[j].1 < l[i].0,
    decreases j - i,
{
    if j == i + 1 {
    } else {
        lemma_fl_sorted_ordered(l, i + 1, j);
        assert(l[i + 1].0 + l[i + 1].1 < l[i].0);
    }
}

/// Block sizes are nonnegative; all this file needs of good standing when
/// only the order matters.
pub open spec fn seq_blocks_wf_weak(l: Seq<(int, int)>) -> bool {
    forall|i: int| 0 <= i < l.len() ==> (#[trigger] l[i]).1 >= 0
}

/// A maximal covered interval of a sorted, non-adjacent chain is one of its
/// blocks: full coalescing, stated once and for all.
pub proof fn lemma_max_interval_is_block(l: Seq<(int, int)>, lo: int, hi: int)
    requires
        fl_sorted(l),
        seq_blocks_wf_weak(l),
        lo < hi,
        forall|x: int| lo <= x < hi ==> covers(l, x),
        !covers(l, lo - 1),
        !covers(l, hi),
    ensures
        exists|i: int| 0 <= i < l.len() && #[trigger] l[i] == (lo, hi - lo),
{
    assert(covers(l, lo));
    let i = choose|i: int| 0 <= i < l.len() && (#[trigger] l[i]).0 <= lo < l[i].0 + l[i].1;
    assert(l[i].0 == lo) by {
        if l[i].0 < lo {
            assert(l[i].0 <= lo - 1 < l[i].0 + l[i].1);
        }
    }
    assert(l[i].0 + l[i].1 <= hi) by {
        if l[i].0 + l[i].1 > hi {
            assert(l[i].0 <= hi < l[i].0 + l[i].1);
        }
    }
    assert(l[i].0 + l[i].1 == hi) by {
        if l[i].0 + l[i].1 < hi {
            let x = l[i].0 + l[i].1;
            assert(lo <= x < hi);
            assert(covers(l, x));
            let j = choose|j: int| 0 <= j < l.len() && (#[trigger] l[j]).0 <= x < l[j].0 + l[j].1;
            assert(j != i);
            if j > i {
                lemma_fl_sorted_ordered(l, i, j);
            } else {
                lemma_fl_sorted_ordered(l, j, i);
                assert(l[i].0 + l[i].1 < l[j].0);
            }
        }
    }
    assert(l[i] == (lo, hi - lo));
}


/// The mathematical state of a [`FreeListAllocator`].
#[verifier::ext_equal]
pub struct FreeListView {
    /// The free chain, sorted by strictly decreasing address, non-adjacent.
    pub free: Seq<(int, int)>,
    /// The bytes of the linear memory.
    pub mem: Seq<u8>,
    /// The live blocks: returned by `allocate` and not yet released.
    pub live: Set<(int, int)>,
}

impl FreeListView {
    /// Free and live blocks are in good standing within the claimed memory,
    /// the chain is sorted and non-adjacent, free and live blocks are
    /// mutually disjoint, and together they cover every claimed byte.
    pub open spec fn wf(self) -> bool {
        &&& self.mem.len() as int % (PAGE_SIZE as int) == 0
        &&& self.mem.len() <= MAX_MEMORY_BYTES
        &&& seq_blocks_wf(self.free, self.mem.len() as int)
        &&& fl_sorted(self.free)
        &&& set_blocks_wf(self.live, self.mem.len() as int)
        &&& set_blocks_disjoint(self.live)
        &&& seq_set_disjoint(self.free, self.live)
        &&& forall|x: int|
            0 <= x < self.mem.len() ==> (#[trigger] covers(self.free, x)) || in_live(self.live, x)
    }
}

/// The state of a freshly built allocator: nothing claimed, nothing chained.
pub open spec fn fl_fresh() -> FreeListView {
    FreeListView { free: Seq::empty(), mem: Seq::<u8>::empty(), live: Set::empty() }
}

/// Carving `s` bytes out of the fitting block at `i`: the high-address part
/// is returned and the low-address part stays chained, unless nothing would
/// be left, in which case the block leaves the chain whole.
pub open spec fn fl_carve(l: Seq<(int, int)>, i: int, s: int) -> (int, Seq<(int, int)>) {
    if l[i].1 - s >= 16 {
        (l[i].0 + l[i].1 - s, l.update(i, (l[i].0, l[i].1 - s)))
    } else {
        (l[i].0, l.remove(i))
    }
}

/// What `allocate` does: first fit from the chain; when nothing fits, claim
/// whole pages, chain them as one block, and search once more.
pub open spec fn fl_alloc_spec(v: FreeListView, size: int, align: int) -> (
    Option<int>,
    FreeListView,
) {
    if align > 16 {
        (None, v)
    } else {
        let s = spec_full_size(size);
        match find_fit(v.free, s) {
            Some(i) => {
                let (p, l2) = fl_carve(v.free, i, s);
                (Some(p), FreeListView { free: l2, live: v.live.insert((p, s)), ..v })
            },
            None => {
                let req = spec_round_up(s, PAGE_SIZE as int);
                let pages = req / (PAGE_SIZE as int);
                if v.mem.len() as int / (PAGE_SIZE as int) + pages > MAX_PAGES {
                    (None, v)
                } else {
                    let base = v.mem.len() as int;
                    let v1 = FreeListView {
                        free: insert_free(v.free, base, req),
                        mem: v.mem + Seq::new(req as nat, |i: int| 0u8),
                        ..v
                    };
                    match find_fit(v1.free, s) {
                        Some(j) => {
                            let (p, l2) = fl_carve(v1.free, j, s);
                            (Some(p), FreeListView { free: l2, live: v1.live.insert((p, s)), ..v1 })
                        },
                        None => (None, v1),
                    }
                }
            },
        }
    }
}

/// What `deallocate` does: merge the block into the chain, in both
/// directions where it touches a neighbour.
pub open spec fn fl_dealloc_spec(v: FreeListView, addr: int, size: int) -> FreeListView {
    let s = spec_full_size(size);
    FreeListView { free: insert_free(v.free, addr, s), live: v.live.remove((addr, s)), ..v }
}

/// What the allocate-new/copy/release-old fallback of `reallocate` does.
pub open spec fn fl_realloc_move_spec(
    v: FreeListView,
    addr: int,
    size: int,
    align: int,
    new_size: int,
) -> (Option<int>, FreeListView) {
    let (rr, v2) = fl_alloc_spec(v, new_size, align);
    match rr {
        None => (None, v2),
        Some(np) => {
            let len = if size < new_size {
                size
            } else {
                new_size
            };
            let v3 = FreeListView { mem: copy_region(v2.mem, addr, np, len), ..v2 };
            (Some(np), fl_dealloc_spec(v3, addr, size))
        },
    }
}

/// What `reallocate` does: shrinking is in place, releasing the tail when it
/// can stand as a block; growing is in place exactly when the chain holds a
/// block starting at the old end that can take the difference; every other
/// case falls back to allocate-copy-release.
pub open spec fn fl_realloc_spec(
    v: FreeListView,
    addr: int,
    size: int,
    align: int,
    new_size: int,
) -> (Option<int>, FreeListView) {
    let old_s = spec_full_size(size);
    let new_s = spec_full_size(new_size);
    if new_s <= old_s {
        let diff = old_s - new_s;
        let live2 = v.live.remove((addr, old_s)).insert((addr, new_s));
        if diff >= 16 {
            (
                Some(addr),
                FreeListView { free: insert_free(v.free, addr + new_s, diff), live: live2, ..v },
            )
        } else {
            (Some(addr), FreeListView { live: live2, ..v })
        }
    } else {
        let target = addr + old_s;
        let needed = new_s - old_s;
        match find_addr(v.free, target) {
            Some(i) => {
                if v.free[i].1 >= needed {
                    let l2 = if v.free[i].1 - needed >= 16 {
                        v.free.update(i, (target + needed, v.free[i].1 - needed))
                    } else {
                        v.free.remove(i)
                    };
                    (
                        Some(addr),
                        FreeListView {
                            free: l2,
                            live: v.live.remove((addr, old_s)).insert((addr, new_s)),
                            ..v
                        },
                    )
                } else {
                    fl_realloc_move_spec(v, addr, size, align, new_size)
                }
            },
            None => fl_realloc_move_spec(v, addr, size, align, new_size),
        }
    }
}

/// Two blocks that overlap share a byte.
proof fn lemma_overlap_byte(c: (int, int), b: (int, int))
    requires
        !ranges_disjoint(c, b),
        c.1 > 0,
        b.1 > 0,
    ensures
        ({
            let x = if c.0 >= b.0 {
                c.0
            } else {
                b.0
            };
            c.0 <= x < c.0 + c.1 && b.0 <= x < b.0 + b.1
        }),
{
}

/// A chain whose coverage only gained the bytes of one released live block
/// stays disjoint from the remaining live blocks.
proof fn lemma_chain_live_disjoint(
    l2: Seq<(int, int)>,
    l: Seq<(int, int)>,
    a: int,
    s: int,
    live: Set<(int, int)>,
    limit: int,
)
    requires
        forall|x: int| #![trigger covers(l2, x)] covers(l2, x) <==> (covers(l, x) || (a <= x < a + s)),
        seq_set_disjoint(l, live),
        set_blocks_wf(live, limit),
        seq_blocks_wf(l2, limit),
        forall|b: (int, int)| #[trigger] live.contains(b) ==> ranges_disjoint((a, s), b),
    ensures
        seq_set_disjoint(l2, live),
{
    assert forall|j: int, b: (int, int)|
        0 <= j < l2.len() && #[trigger] live.contains(b) implies ranges_disjoint(
        #[trigger] l2[j],
        b,
    ) by {
        if !ranges_disjoint(l2[j], b) {
            assert(block_wf(l2[j], limit));
            assert(block_wf(b, limit));
            lemma_overlap_byte(l2[j], b);
            let x = if l2[j].0 >= b.0 {
                l2[j].0
            } else {
                b.0
            };
            assert(covers(l2, x));
            if covers(l, x) {
                let k = choose|k: int|
                    0 <= k < l.len() && (#[trigger] l[k]).0 <= x < l[k].0 + l[k].1;
                assert(ranges_disjoint(l[k], b));
            } else {
                assert(ranges_disjoint((a, s), b));
            }
        }
    }
}

/// Releasing a live block back into the chain preserves the invariant.
proof fn lemma_fl_dealloc_wf(v: FreeListView, addr: int, s: int)
    requires
        v.wf(),
        v.live.contains((addr, s)),
    ensures
        (FreeListView {
            free: insert_free(v.free, addr, s),
            live: v.live.remove((addr, s)),
            ..v
        }).wf(),
{
    let blk = (addr, s);
    let m = v.mem.len() as int;
    assert(block_wf(blk, m));
    assert forall|i: int| 0 <= i < v.free.len() implies ranges_disjoint(#[trigger] v.free[i], blk) by {
        assert(v.live.contains(blk));
    }
    lemma_insert_free_props(v.free, addr, s, m);
    let l2 = insert_free(v.free, addr, s);
    let live2 = v.live.remove(blk);
    assert forall|b: (int, int)| #[trigger] live2.contains(b) implies block_wf(b, m) by {
        assert(v.live.contains(b));
    }
    assert forall|a1: (int, int), b1: (int, int)|
        #[trigger] live2.contains(a1) && #[trigger] live2.contains(b1) && a1 != b1
        implies ranges_disjoint(a1, b1) by {
        assert(v.live.contains(a1) && v.live.contains(b1));
    }
    assert forall|b: (int, int)| #[trigger] live2.contains(b) implies ranges_disjoint(blk, b) by {
        assert(v.live.contains(b) && b != blk);
    }
    lemma_chain_live_disjoint(l2, v.free, addr, s, live2, m);
    assert forall|x: int| 0 <= x < m implies (#[trigger] covers(l2, x)) || in_live(live2, x) by {
        if covers(v.free, x) {
        } else if addr <= x < addr + s {
        } else {
            assert(in_live(v.live, x));
            let b = choose|b: (int, int)| #[trigger] v.live.contains(b) && b.0 <= x < b.0 + b.1;
            assert(b != blk);
            assert(live2.contains(b));
        }
    }
}

/// Blocks of a sorted, non-adjacent chain are pairwise disjoint.
proof fn lemma_fl_sorted_disjoint(l: Seq<(int, int)>, limit: int, i: int, j: int)
    requires
        fl_sorted(l),
        seq_blocks_wf(l, limit),
        0 <= i < l.len(),
        0 <= j < l.len(),
        i != j,
    ensures
        ranges_disjoint(l[i], l[j]),
{
    assert forall|k: int| 0 <= k < l.len() implies (#[trigger] l[k]).1 >= 0 by {
        assert(block_wf(l[k], limit));
    }
    if i < j {
        lemma_fl_sorted_ordered(l, i, j);
    } else {
        lemma_fl_sorted_ordered(l, j, i);
    }
}

/// Inserting a disjoint block into the live set keeps the live-set half of
/// the invariant.
proof fn lemma_fl_live_insert(v: FreeListView, blk: (int, int))
    requires
        v.wf(),
        block_wf(blk, v.mem.len() as int),
        forall|b: (int, int)| #[trigger] v.live.contains(b) ==> ranges_disjoint(blk, b),
    ensures
        set_blocks_wf(v.live.insert(blk), v.mem.len() as int),
        set_blocks_disjoint(v.live.insert(blk)),
{
    let m = v.mem.len() as int;
    let live2 = v.live.insert(blk);
    assert forall|b: (int, int)| #[trigger] live2.contains(b) implies block_wf(b, m) by {
        if b != blk {
            assert(v.live.contains(b));
        }
    }
    assert forall|a1: (int, int), b1: (int, int)|
        #[trigger] live2.contains(a1) && #[trigger] live2.contains(b1) && a1 != b1
        implies ranges_disjoint(a1, b1) by {
        if a1 == blk {
            assert(v.live.contains(b1));
        } else if b1 == blk {
            assert(v.live.contains(a1));
        } else {
            assert(v.live.contains(a1) && v.live.contains(b1));
        }
    }
}

/// Carving `s` bytes off the high end of the fitting block at `i`, shrinking
/// it in place, preserves the invariant; the carved block is disjoint from
/// every block that was live before.
#[verifier::rlimit(100)]
#[verifier::spinoff_prover]
proof fn lemma_fl_carve_split_wf(v: FreeListView, i: int, s: int)
    requires
        v.wf(),
        0 <= i < v.free.len(),
        16 <= s,
        v.free[i].1 - s >= 16,
        s % 16 == 0,
    ensures
        ({
            let p = v.free[i].0 + v.free[i].1 - s;
            let l2 = v.free.update(i, (v.free[i].0, v.free[i].1 - s));
            &&& (FreeListView { free: l2, live: v.live.insert((p, s)), ..v }).wf()
            &&& p % 16 == 0
            &&& 0 <= p
            &&& p + s <= v.mem.len()
            &&& forall|b: (int, int)| v.live.contains(b) ==> ranges_disjoint((p, s), b)
        }),
{
    let m = v.mem.len() as int;
    let na = v.free[i].0;
    let ns = v.free[i].1;
    let p = na + ns - s;
    let l2 = v.free.update(i, (na, ns - s));
    let blk = (p, s);
    assert(block_wf(v.free[i], m));
    assert forall|b: (int, int)| v.live.contains(b) implies ranges_disjoint(blk, b) by {
        assert(ranges_disjoint(v.free[i], b));
    }
    lemma_fl_live_insert(v, blk);
    let live2 = v.live.insert(blk);
    assert forall|j: int| 0 <= j < l2.len() implies block_wf(#[trigger] l2[j], m) by {
        if j != i {
            assert(l2[j] == v.free[j]);
        }
    }
    assert forall|j: int| 0 <= j < l2.len() - 1 implies l2[j + 1].0 + l2[j + 1].1 < (
    #[trigger] l2[j]).0 by {
        assert(v.free[j + 1].0 + v.free[j + 1].1 < v.free[j].0);
        if j + 1 == i {
            assert(l2[j] == v.free[j]);
        }
    }
    assert forall|j: int, b: (int, int)|
        0 <= j < l2.len() && #[trigger] live2.contains(b) implies ranges_disjoint(
        #[trigger] l2[j],
        b,
    ) by {
        if b == blk {
            if j != i {
                lemma_fl_sorted_disjoint(v.free, m, j, i);
                assert(l2[j] == v.free[j]);
            }
        } else {
            assert(v.live.contains(b));
            if j == i {
                assert(ranges_disjoint(v.free[i], b));
            } else {
                assert(l2[j] == v.free[j]);
                assert(ranges_disjoint(v.free[j], b));
            }
        }
    }
    lemma_fl_carve_split_cover(v, i, s);
}

/// The bytes of the chain and the live set together still cover everything
/// after a split carve.
#[verifier::rlimit(100)]
#[verifier::spinoff_prover]
proof fn lemma_fl_carve_split_cover(v: FreeListView, i: int, s: int)
    requires
        v.wf(),
        0 <= i < v.free.len(),
        16 <= s,
        v.free[i].1 - s >= 16,
        s % 16 == 0,
    ensures
        ({
            let p = v.free[i].0 + v.free[i].1 - s;
            let l2 = v.free.update(i, (v.free[i].0, v.free[i].1 - s));
            let live2 = v.live.insert((p, s));
            forall|x: int|
                0 <= x < v.mem.len() ==> (#[trigger] covers(l2, x)) || in_live(live2, x)
        }),
{
    let m = v.mem.len() as int;
    let na = v.free[i].0;
    let ns = v.free[i].1;
    let p = na + ns - s;
    let l2 = v.free.update(i, (na, ns - s));
    let blk = (p, s);
    let live2 = v.live.insert(blk);
    assert forall|x: int| 0 <= x < m implies (#[trigger] covers(l2, x)) || in_live(live2, x) by {
        if covers(v.free, x) {
            let k = choose|k: int|
                0 <= k < v.free.len() && (#[trigger] v.free[k]).0 <= x < v.free[k].0 + v.free[k].1;
            if k == i {
                if x < na + ns - s {
                    assert(l2[i].0 <= x < l2[i].0 + l2[i].1);
                    assert(covers(l2, x));
                } else {
                    assert(live2.contains(blk));
                    assert(in_live(live2, x));
                }
            } else {
                assert(l2[k] == v.free[k]);
                assert(covers(l2, x));
            }
        } else {
            assert(in_live(v.live, x));
            let b = choose|b: (int, int)| #[trigger] v.live.contains(b) && b.0 <= x < b.0 + b.1;
            assert(live2.contains(b));
            assert(in_live(live2, x));
        }
    }
}

/// Handing out the exactly fitting block at `i` whole preserves the
/// invariant; the block is disjoint from every block that was live before.
#[verifier::rlimit(100)]
#[verifier::spinoff_prover]
proof fn lemma_fl_carve_exact_wf(v: FreeListView, i: int, s: int)
    requires
        v.wf(),
        0 <= i < v.free.len(),
        16 <= s <= v.free[i].1,
        v.free[i].1 - s < 16,
        s % 16 == 0,
    ensures
        v.free[i].1 == s,
        ({
            let p = v.free[i].0;
            let l2 = v.free.remove(i);
            &&& (FreeListView { free: l2, live: v.live.insert((p, s)), ..v }).wf()
            &&& p % 16 == 0
            &&& 0 <= p
            &&& p + s <= v.mem.len()
            &&& forall|b: (int, int)| v.live.contains(b) ==> ranges_disjoint((p, s), b)
        }),
{
    let m = v.mem.len() as int;
    let na = v.free[i].0;
    let ns = v.free[i].1;
    assert(block_wf(v.free[i], m));
    assert(ns == s);
    let p = na;
    let l2 = v.free.remove(i);
    let blk = (p, s);
    assert forall|b: (int, int)| v.live.contains(b) implies ranges_disjoint(blk, b) by {
        assert(ranges_disjoint(v.free[i], b));
    }
    lemma_fl_live_insert(v, blk);
    let live2 = v.live.insert(blk);
    assert forall|j: int| 0 <= j < l2.len() implies block_wf(#[trigger] l2[j], m) by {
        if j < i {
            assert(l2[j] == v.free[j]);
        } else {
            assert(l2[j] == v.free[j + 1]);
        }
    }
    assert forall|j: int| 0 <= j < l2.len() - 1 implies l2[j + 1].0 + l2[j + 1].1 < (
    #[trigger] l2[j]).0 by {
        if j + 1 < i {
            assert(l2[j] == v.free[j] && l2[j + 1] == v.free[j + 1]);
            assert(v.free[j + 1].0 + v.free[j + 1].1 < v.free[j].0);
        } else if j + 1 == i {
            assert(l2[j] == v.free[j] && l2[j + 1] == v.free[i + 1]);
            assert(v.free[i + 1].0 + v.free[i + 1].1 < v.free[i].0);
            assert(v.free[i].0 < v.free[i].0 + v.free[i].1);
            assert(v.free[i].0 + v.free[i].1 < v.free[j].0);
        } else {
            assert(l2[j] == v.free[j + 1] && l2[j + 1] == v.free[j + 2]);
            assert(v.free[j + 2].0 + v.free[j + 2].1 < v.free[j + 1].0);
        }
    }
    assert forall|j: int, b: (int, int)|
        0 <= j < l2.len() && #[trigger] live2.contains(b) implies ranges_disjoint(
        #[trigger] l2[j],
        b,
    ) by {
        let j0 = if j < i {
            j
        } else {
            j + 1
        };
        assert(l2[j] == v.free[j0]);
        if b == blk {
            lemma_fl_sorted_disjoint(v.free, m, j0, i);
        } else {
            assert(v.live.contains(b));
            assert(ranges_disjoint(v.free[j0], b));
        }
    }
    lemma_fl_carve_exact_cover(v, i, s);
}

/// The bytes of the chain and the live set together still cover everything
/// after an exact-fit carve.
#[verifier::rlimit(100)]
#[verifier::spinoff_prover]
proof fn lemma_fl_carve_exact_cover(v: FreeListView, i: int, s: int)
    requires
        v.wf(),
        0 <= i < v.free.len(),
        16 <= s <= v.free[i].1,
        v.free[i].1 - s < 16,
        s % 16 == 0,
    ensures
        ({
            let p = v.free[i].0;
            let l2 = v.free.remove(i);
            let live2 = v.live.insert((p, s));
            forall|x: int|
                0 <= x < v.mem.len() ==> (#[trigger] covers(l2, x)) || in_live(live2, x)
        }),
{
    let m = v.mem.len() as int;
    let l2 = v.free.remove(i);
    let blk = (v.free[i].0, s);
    let live2 = v.live.insert(blk);
    assert(block_wf(v.free[i], m));
    assert(v.free[i].1 == s);
    assert forall|x: int| 0 <= x < m implies (#[trigger] covers(l2, x)) || in_live(live2, x) by {
        if covers(v.free, x) {
            let k = choose|k: int|
                0 <= k < v.free.len() && (#[trigger] v.free[k]).0 <= x < v.free[k].0 + v.free[k].1;
            if k == i {
                assert(live2.contains(blk));
                assert(in_live(live2, x));
            } else {
                let k2 = if k < i {
                    k
                } else {
                    k - 1
                };
                assert(l2[k2] == v.free[k]);
                assert(covers(l2, x));
            }
        } else {
            assert(in_live(v.live, x));
            let b = choose|b: (int, int)| #[trigger] v.live.contains(b) && b.0 <= x < b.0 + b.1;
            assert(live2.contains(b));
            assert(in_live(live2, x));
        }
    }
}



/// Shrinking a live block in place, releasing its tail into the chain when
/// the tail can stand as a block of its own, preserves the invariant.
#[verifier::rlimit(100)]
#[verifier::spinoff_prover]
proof fn lemma_fl_shrink_wf(v: FreeListView, addr: int, old_s: int, new_s: int)
    requires
        v.wf(),
        v.live.contains((addr, old_s)),
        16 <= new_s <= old_s,
        new_s % 16 == 0,
        old_s % 16 == 0,
    ensures
        ({
            let diff = old_s - new_s;
            let live2 = v.live.remove((addr, old_s)).insert((addr, new_s));
            if diff >= 16 {
                (FreeListView {
                    free: insert_free(v.free, addr + new_s, diff),
                    live: live2,
                    ..v
                }).wf()
            } else {
                (FreeListView { live: live2, ..v }).wf()
            }
        }),
{
    let m = v.mem.len() as int;
    let old_blk = (addr, old_s);
    let new_blk = (addr, new_s);
    let diff = old_s - new_s;
    let live2 = v.live.remove(old_blk).insert(new_blk);
    assert(block_wf(old_blk, m));
    if diff < 16 {
        assert(diff == 0);
        assert(live2 =~= v.live);
        assert((FreeListView { live: live2, ..v }) =~= v);
    } else {
        let rem = (addr + new_s, diff);
        assert(block_wf(rem, m));
        assert forall|j: int|
            0 <= j < v.free.len() implies ranges_disjoint(#[trigger] v.free[j], rem) by {
            assert(ranges_disjoint(v.free[j], old_blk));
        }
        lemma_insert_free_props(v.free, addr + new_s, diff, m);
        let l2 = insert_free(v.free, addr + new_s, diff);
        assert forall|b: (int, int)| #[trigger] live2.contains(b) implies block_wf(b, m) by {
            if b != new_blk {
                assert(v.live.contains(b));
            }
        }
        assert forall|a1: (int, int), b1: (int, int)|
            #[trigger] live2.contains(a1) && #[trigger] live2.contains(b1) && a1 != b1
            implies ranges_disjoint(a1, b1) by {
            if a1 == new_blk {
                assert(v.live.contains(b1) && b1 != old_blk);
                assert(ranges_disjoint(old_blk, b1));
            } else if b1 == new_blk {
                assert(v.live.contains(a1) && a1 != old_blk);
                assert(ranges_disjoint(old_blk, a1));
            } else {
                assert(v.live.contains(a1) && v.live.contains(b1));
            }
        }
        assert forall|b: (int, int)| #[trigger] live2.contains(b) implies ranges_disjoint(rem, b) by {
            if b != new_blk {
                assert(v.live.contains(b) && b != old_blk);
                assert(ranges_disjoint(old_blk, b));
            }
        }
        assert(seq_set_disjoint(v.free, live2)) by {
            assert forall|j: int, b: (int, int)|
                0 <= j < v.free.len() && #[trigger] live2.contains(b) implies ranges_disjoint(
                #[trigger] v.free[j],
                b,
            ) by {
                if b == new_blk {
                    assert(ranges_disjoint(v.free[j], old_blk));
                } else {
                    assert(v.live.contains(b));
                }
            }
        }
        lemma_chain_live_disjoint(l2, v.free, addr + new_s, diff, live2, m);
        assert forall|x: int| 0 <= x < m implies (#[trigger] covers(l2, x)) || in_live(live2, x) by {
            if covers(v.free, x) {
            } else {
                assert(in_live(v.live, x));
                let b = choose|b: (int, int)| #[trigger] v.live.contains(b) && b.0 <= x < b.0 + b.1;
                if b == old_blk {
                    if x < addr + new_s {
                        assert(live2.contains(new_blk));
                        assert(in_live(live2, x));
                    } else {
                        assert(covers(l2, x));
                    }
                } else {
                    assert(live2.contains(b));
                    assert(in_live(live2, x));
                }
            }
        }
    }
}

/// Growing a live block in place into the chained block that starts exactly
/// at its end preserves the invariant; the chained block shrinks from its
/// low end, or leaves the chain when consumed whole.
#[verifier::rlimit(100)]
#[verifier::spinoff_prover]
proof fn lemma_fl_grow_in_place_wf(v: FreeListView, addr: int, old_s: int, needed: int, i: int)
    requires
        v.wf(),
        v.live.contains((addr, old_s)),
        16 <= old_s,
        old_s % 16 == 0,
        16 <= needed,
        needed % 16 == 0,
        0 <= i < v.free.len(),
        v.free[i].0 == addr + old_s,
        v.free[i].1 >= needed,
    ensures
        ({
            let target = addr + old_s;
            let live2 = v.live.remove((addr, old_s)).insert((addr, old_s + needed));
            let l2 = if v.free[i].1 - needed >= 16 {
                v.free.update(i, (target + needed, v.free[i].1 - needed))
            } else {
                v.free.remove(i)
            };
            (FreeListView { free: l2, live: live2, ..v }).wf()
        }),
{
    let m = v.mem.len() as int;
    let target = addr + old_s;
    let node = v.free[i];
    let old_blk = (addr, old_s);
    let new_blk = (addr, old_s + needed);
    let live2 = v.live.remove(old_blk).insert(new_blk);
    assert(block_wf(old_blk, m));
    assert(block_wf(node, m));
    let exact = node.1 - needed < 16;
    assert(exact ==> node.1 == needed);
    let l2 = if !exact {
        v.free.update(i, (target + needed, node.1 - needed))
    } else {
        v.free.remove(i)
    };
    // Every other chained block lies entirely below the live block or
    // entirely above the consumed part of the node.
    assert forall|j: int|
        0 <= j < v.free.len() && j != i implies (v.free[j].0 + v.free[j].1 <= addr || (
        #[trigger] v.free[j]).0 >= target + node.1) by {
        lemma_fl_sorted_disjoint(v.free, m, j, i);
        assert(ranges_disjoint(v.free[j], old_blk));
        assert(block_wf(v.free[j], m));
        if v.free[j].0 + v.free[j].1 > addr {
            assert(v.free[j].0 >= target);
            assert(v.free[j].0 + v.free[j].1 > target);
            assert(v.free[j].0 >= target + node.1 || v.free[j].0 + v.free[j].1 <= target);
        }
    }
    // Every other live block lies entirely below the live block or entirely
    // above the consumed part of the node.
    assert forall|b: (int, int)|
        v.live.contains(b) && b != old_blk implies (b.0 + b.1 <= addr || b.0 >= target + node.1) by {
        assert(ranges_disjoint(old_blk, b));
        assert(ranges_disjoint(v.free[i], b));
        assert(block_wf(b, m));
        if b.0 + b.1 > addr {
            assert(b.0 >= target);
            assert(b.0 + b.1 > target);
            assert(b.0 >= target + node.1 || b.0 + b.1 <= target);
        }
    }
    assert(block_wf(new_blk, m));
    assert forall|b: (int, int)| #[trigger] live2.contains(b) implies block_wf(b, m) by {
        if b != new_blk {
            assert(v.live.contains(b));
        }
    }
    assert forall|a1: (int, int), b1: (int, int)|
        #[trigger] live2.contains(a1) && #[trigger] live2.contains(b1) && a1 != b1
        implies ranges_disjoint(a1, b1) by {
        if a1 == new_blk {
            assert(v.live.contains(b1) && b1 != old_blk);
        } else if b1 == new_blk {
            assert(v.live.contains(a1) && a1 != old_blk);
        } else {
            assert(v.live.contains(a1) && v.live.contains(b1));
        }
    }
    assert forall|j: int| 0 <= j < l2.len() implies block_wf(#[trigger] l2[j], m) by {
        if !exact {
            if j != i {
                assert(l2[j] == v.free[j]);
            }
        } else {
            let j0 = if j < i {
                j
            } else {
                j + 1
            };
            assert(l2[j] == v.free[j0]);
        }
    }
    assert forall|j: int| 0 <= j < l2.len() - 1 implies l2[j + 1].0 + l2[j + 1].1 < (
    #[trigger] l2[j]).0 by {
        if !exact {
            assert(v.free[j + 1].0 + v.free[j + 1].1 < v.free[j].0);
            if j + 1 == i {
                assert(l2[j] == v.free[j]);
            }
        } else {
            if j + 1 < i {
                assert(l2[j] == v.free[j] && l2[j + 1] == v.free[j + 1]);
                assert(v.free[j + 1].0 + v.free[j + 1].1 < v.free[j].0);
            } else if j + 1 == i {
                assert(l2[j] == v.free[j] && l2[j + 1] == v.free[i + 1]);
                assert(v.free[i + 1].0 + v.free[i + 1].1 < v.free[i].0);
                assert(v.free[i].0 < v.free[i].0 + v.free[i].1);
                assert(v.free[i].0 + v.free[i].1 < v.free[j].0);
            } else {
                assert(l2[j] == v.free[j + 1] && l2[j + 1] == v.free[j + 2]);
                assert(v.free[j + 2].0 + v.free[j + 2].1 < v.free[j + 1].0);
            }
        }
    }
    assert forall|j: int, b: (int, int)|
        0 <= j < l2.len() && #[trigger] live2.contains(b) implies ranges_disjoint(
        #[trigger] l2[j],
        b,
    ) by {
        let j0 = if !exact {
            j
        } else if j < i {
            j
        } else {
            j + 1
        };
        if !exact && j == i {
            if b == new_blk {
            } else {
                assert(v.live.contains(b) && b != old_blk);
                assert(b.0 + b.1 <= addr || b.0 >= target + node.1);
            }
        } else {
            assert(l2[j] == v.free[j0]);
            assert(j0 != i);
            if b == new_blk {
                assert(v.free[j0].0 + v.free[j0].1 <= addr || v.free[j0].0 >= target + node.1);
            } else {
                assert(v.live.contains(b));
                assert(ranges_disjoint(v.free[j0], b));
            }
        }
    }
    assert forall|x: int| 0 <= x < m implies (#[trigger] covers(l2, x)) || in_live(live2, x) by {
        if covers(v.free, x) {
            let k = choose|k: int|
                0 <= k < v.free.len() && (#[trigger] v.free[k]).0 <= x < v.free[k].0 + v.free[k].1;
            if k == i {
                if x < target + needed {
                    assert(live2.contains(new_blk));
                    assert(in_live(live2, x));
                } else {
                    assert(!exact);
                    assert(l2[i].0 <= x < l2[i].0 + l2[i].1);
                    assert(covers(l2, x));
                }
            } else {
                let k2 = if !exact {
                    k
                } else if k < i {
                    k
                } else {
                    k - 1
                };
                assert(l2[k2] == v.free[k]);
                assert(covers(l2, x));
            }
        } else {
            assert(in_live(v.live, x));
            let b = choose|b: (int, int)| #[trigger] v.live.contains(b) && b.0 <= x < b.0 + b.1;
            if b == old_blk {
                assert(live2.contains(new_blk));
                assert(in_live(live2, x));
            } else {
                assert(live2.contains(b));
                assert(in_live(live2, x));
            }
        }
    }
}

/// Claiming fresh pages and chaining them as one block preserves the
/// invariant.
#[verifier::rlimit(100)]
#[verifier::spinoff_prover]
proof fn lemma_fl_grow_wf(v: FreeListView, req: int)
    requires
        v.wf(),
        16 <= req,
        req % (PAGE_SIZE as int) == 0,
        v.mem.len() + req <= MAX_MEMORY_BYTES,
    ensures
        ({
            let base = v.mem.len() as int;
            (FreeListView {
                free: insert_free(v.free, base, req),
                mem: v.mem + Seq::new(req as nat, |i: int| 0u8),
                ..v
            }).wf()
        }),
        exists|i: int|
            0 <= i < insert_free(v.free, v.mem.len() as int, req).len() && (
            #[trigger] insert_free(v.free, v.mem.len() as int, req)[i]).1 >= req,
{
    let base = v.mem.len() as int;
    let m2 = base + req;
    lemma_mod_trans(base, PAGE_SIZE as int, 16);
    lemma_mod_trans(req, PAGE_SIZE as int, 16);
    assert(block_wf((base, req), m2));
    assert forall|j: int| 0 <= j < v.free.len() implies block_wf(#[trigger] v.free[j], m2)
        && ranges_disjoint(v.free[j], (base, req)) by {
        assert(block_wf(v.free[j], base));
    }
    lemma_insert_free_props(v.free, base, req, m2);
    let l2 = insert_free(v.free, base, req);
    let live = v.live;
    assert forall|b: (int, int)| #[trigger] live.contains(b) implies block_wf(b, m2)
        && ranges_disjoint((base, req), b) by {
        assert(block_wf(b, base));
    }
    lemma_chain_live_disjoint(l2, v.free, base, req, live, m2);
    assert forall|x: int| 0 <= x < m2 implies (#[trigger] covers(l2, x)) || in_live(live, x) by {
        if x < base {
            assert(covers(v.free, x) || in_live(live, x));
        } else {
            assert(base <= x < base + req);
        }
    }
    let mem2 = v.mem + Seq::new(req as nat, |i: int| 0u8);
    assert(mem2.len() as int % (PAGE_SIZE as int) == 0) by {
        vstd::arithmetic::div_mod::lemma_mod_multiples_vanish(
            req / (PAGE_SIZE as int),
            base,
            PAGE_SIZE as int,
        );
        vstd::arithmetic::div_mod::lemma_fundamental_div_mod(req, PAGE_SIZE as int);
        assert((PAGE_SIZE as int) * (req / (PAGE_SIZE as int)) == (req / (PAGE_SIZE as int)) * (
        PAGE_SIZE as int)) by (nonlinear_arith);
    }
}

/// The invariant does not depend on the bytes held in memory, only on its
/// extent.
proof fn lemma_fl_wf_frame(v: FreeListView, v2: FreeListView)
    requires
        v.wf(),
        v2.free == v.free,
        v2.live == v.live,
        v2.mem.len() == v.mem.len(),
    ensures
        v2.wf(),
{
    assert forall|x: int|
        0 <= x < v2.mem.len() implies (#[trigger] covers(v2.free, x)) || in_live(v2.live, x) by {
        assert(covers(v.free, x) || in_live(v.live, x));
    }
}

/// In every branch of `fl_alloc_spec`, success adds exactly the returned
/// block to the live set; failure leaves the live set and the chain's
/// coverage of old bytes alone.
proof fn lemma_fl_alloc_live(v: FreeListView, size: int, align: int)
    ensures
        ({
            let (rr, v2) = fl_alloc_spec(v, size, align);
            &&& v2.live == match rr {
                Some(p) => v.live.insert((p, spec_full_size(size))),
                None => v.live,
            }
            &&& v2.mem.len() >= v.mem.len()
        }),
{
    if align > 16 {
    } else {
        let s = spec_full_size(size);
        match find_fit(v.free, s) {
            Some(i) => {},
            None => {},
        }
    }
}


/// Walking past the blocks above `target` does not change what the search
/// finds.
proof fn lemma_find_addr_unfold(l: Seq<(int, int)>, target: int, k: int)
    requires
        0 <= k <= l.len(),
        forall|j: int| 0 <= j < k ==> (#[trigger] l[j]).0 > target,
    ensures
        find_addr(l, target) == match find_addr(l.skip(k), target) {
            Some(i) => Some(i + k),
            None => None::<int>,
        },
    decreases k,
{
    if k == 0 {
        assert(l.skip(0) =~= l);
    } else {
        let t = l.skip(1);
        assert forall|j: int| 0 <= j < k - 1 implies (#[trigger] t[j]).0 > target by {
            assert(t[j] == l[j + 1]);
        }
        lemma_find_addr_unfold(t, target, k - 1);
        assert(t.skip(k - 1) =~= l.skip(k));
    }
}

/// The address-ordered, coalescing free list allocator. Single-threaded: the
/// value owns all of its state, including its linear memory.
pub struct FreeListAllocator {
    memory: LinearMemory,
    free: Vec<FreeBlock>,
    live: Ghost<Set<(int, int)>>,
}

impl View for FreeListAllocator {
    type V = FreeListView;

    closed spec fn view(&self) -> FreeListView {
        FreeListView { free: blocks_view(self.free@), mem: self.memory@, live: self.live@ }
    }
}

impl FreeListAllocator {
    /// The allocator's invariant.
    pub open spec fn wf(&self) -> bool {
        self@.wf()
    }

    /// A fresh allocator over a fresh linear memory.
    pub fn new() -> (r: FreeListAllocator)
        ensures
            r.wf(),
            r@ == fl_fresh(),
    {
        let r = FreeListAllocator {
            memory: LinearMemory::new(),
            free: Vec::new(),
            live: Ghost(Set::empty()),
        };
        proof {
            assert(blocks_view(r.free@) =~= Seq::<(int, int)>::empty());
            assert(r@ =~= fl_fresh());
        }
        r
    }

    /// Testing only: restores the fresh state, dropping every block and the
    /// whole claimed region. Calling it while an allocation is still in use
    /// forfeits that block.
    pub fn reset(&mut self)
        ensures
            final(self).wf(),
            final(self)@ == fl_fresh(),
    {
        let fresh = FreeListAllocator::new();
        *self = fresh;
    }

    /// Merges the block into the chain, walking from the highest address
    /// down: the executable counterpart of `insert_free`.
    fn insert_block(&mut self, addr: usize, size: usize)
        requires
            seq_blocks_wf(old(self)@.free, MAX_MEMORY_BYTES as int),
            addr + size <= MAX_MEMORY_BYTES,
            forall|j: int|
                0 <= j < old(self)@.free.len() ==> ranges_disjoint(
                    #[trigger] old(self)@.free[j],
                    (addr as int, size as int),
                ),
        ensures
            final(self)@.mem == old(self)@.mem,
            final(self)@.live == old(self)@.live,
            final(self)@.free == insert_free(old(self)@.free, addr as int, size as int),
    {
        let ghost l0 = blocks_view(self.free@);
        let n = self.free.len();
        let mut i: usize = 0;
        while i < n
            invariant
                0 <= i <= n,
                n == self.free@.len(),
                self@.mem == old(self)@.mem,
                self@.live == old(self)@.live,
                l0 == old(self)@.free,
                l0 == blocks_view(self.free@),
                seq_blocks_wf(l0, MAX_MEMORY_BYTES as int),
                addr + size <= MAX_MEMORY_BYTES,
                forall|j: int|
                    0 <= j < l0.len() ==> ranges_disjoint(
                        #[trigger] l0[j],
                        (addr as int, size as int),
                    ),
                forall|j: int| 0 <= j < i ==> (#[trigger] l0[j]).0 > addr + size,
            decreases n - i,
        {
            let b = self.free[i];
            proof {
                assert(l0[i as int] == (b.addr as int, b.size as int));
                assert(block_wf(l0[i as int], MAX_MEMORY_BYTES as int));
                lemma_insert_free_unfold(l0, addr as int, size as int, i as int);
            }
            if b.addr == addr + size {
                let mut merged_low = false;
                if i + 1 < n {
                    let c = self.free[i + 1];
                    proof {
                        assert(l0[i as int + 1] == (c.addr as int, c.size as int));
                        assert(block_wf(l0[i as int + 1], MAX_MEMORY_BYTES as int));
                    }
                    if c.addr + c.size == addr {
                        let ghost f1 = self.free@;
                        let merged = FreeBlock { addr: c.addr, size: c.size + (size + b.size) };
                        self.free[i + 1] = merged;
                        proof {
                            lemma_blocks_view_update(f1, i as int + 1, merged);
                        }
                        let ghost f2 = self.free@;
                        self.free.remove(i);
                        proof {
                            lemma_blocks_view_remove(f2, i as int);
                            let inner = insert_free(l0.skip(i as int), addr as int, size as int);
                            assert(l0.skip(i as int)[0] == l0[i as int]);
                            assert(l0.skip(i as int)[1] == l0[i as int + 1]);
                            assert(l0.skip(i as int).skip(2) =~= l0.skip(i as int + 2));
                            assert(blocks_view(self.free@) =~= l0.take(i as int) + inner);
                        }
                        merged_low = true;
                    }
                }
                if !merged_low {
                    let ghost f1 = self.free@;
                    let grown = FreeBlock { addr, size: size + b.size };
                    self.free[i] = grown;
                    proof {
                        lemma_blocks_view_update(f1, i as int, grown);
                        let inner = insert_free(l0.skip(i as int), addr as int, size as int);
                        assert(l0.skip(i as int)[0] == l0[i as int]);
                        if i + 1 < n {
                            assert(l0.skip(i as int)[1] == l0[i as int + 1]);
                        }
                        assert(l0.skip(i as int).skip(1) =~= l0.skip(i as int + 1));
                        assert(blocks_view(self.free@) =~= l0.take(i as int) + inner);
                    }
                }
                return ;
            }
            if b.addr < addr {
                if b.addr + b.size == addr {
                    let ghost f1 = self.free@;
                    let grown = FreeBlock { addr: b.addr, size: b.size + size };
                    self.free[i] = grown;
                    proof {
                        lemma_blocks_view_update(f1, i as int, grown);
                        let inner = insert_free(l0.skip(i as int), addr as int, size as int);
                        assert(l0.skip(i as int)[0] == l0[i as int]);
                        assert(l0.skip(i as int).skip(1) =~= l0.skip(i as int + 1));
                        assert(blocks_view(self.free@) =~= l0.take(i as int) + inner);
                    }
                } else {
                    let ghost f1 = self.free@;
                    self.free.insert(i, FreeBlock { addr, size });
                    proof {
                        lemma_blocks_view_insert(f1, i as int, FreeBlock { addr, size });
                        let inner = insert_free(l0.skip(i as int), addr as int, size as int);
                        assert(l0.skip(i as int)[0] == l0[i as int]);
                        assert(blocks_view(self.free@) =~= l0.take(i as int) + inner);
                    }
                }
                return ;
            }
            proof {
                assert(ranges_disjoint(l0[i as int], (addr as int, size as int)));
                assert(l0[i as int].0 > addr + size);
            }
            i = i + 1;
        }
        let ghost f1 = self.free@;
        self.free.push(FreeBlock { addr, size });
        proof {
            lemma_blocks_view_push(f1, FreeBlock { addr, size });
            lemma_insert_free_unfold(l0, addr as int, size as int, n as int);
            assert(l0.skip(n as int) =~= Seq::<(int, int)>::empty());
            assert(blocks_view(self.free@) =~= l0.take(n as int) + insert_free(
                l0.skip(n as int),
                addr as int,
                size as int,
            ));
        }
    }

    /// First-fit search and carve: the executable counterpart of `find_fit`
    /// followed by `fl_carve`.
    fn search_carve(&mut self, s: usize) -> (r: Option<usize>)
        requires
            old(self).wf(),
            16 <= s,
        ensures
            final(self)@.mem == old(self)@.mem,
            final(self)@.live == old(self)@.live,
            match find_fit(old(self)@.free, s as int) {
                Some(i) => {
                    &&& r matches Some(p) && p as int == fl_carve(old(self)@.free, i, s as int).0
                    &&& final(self)@.free == fl_carve(old(self)@.free, i, s as int).1
                },
                None => r is None && final(self)@.free == old(self)@.free,
            },
    {
        let ghost v0 = self@;
        match scan_first_fit(&self.free, s) {
            None => None,
            Some(i) => {
                let b = self.free[i];
                proof {
                    assert(v0.free[i as int] == (b.addr as int, b.size as int));
                    assert(block_wf(v0.free[i as int], v0.mem.len() as int));
                }
                if b.size - s >= 16 {
                    self.free[i] = FreeBlock { addr: b.addr, size: b.size - s };
                    proof {
                        lemma_blocks_view_update(
                            old(self).free@,
                            i as int,
                            FreeBlock { addr: b.addr, size: (b.size - s) as usize },
                        );
                        assert(blocks_view(self.free@) =~= fl_carve(v0.free, i as int, s as int).1);
                    }
                    Some(b.addr + (b.size - s))
                } else {
                    self.free.remove(i);
                    proof {
                        lemma_blocks_view_remove(old(self).free@, i as int);
                        assert(blocks_view(self.free@) =~= fl_carve(v0.free, i as int, s as int).1);
                    }
                    Some(b.addr)
                }
            },
        }
    }

    /// Finds the chained block starting exactly at `target`, walking from the
    /// highest address down: the executable counterpart of `find_addr`.
    fn find_node_at(&self, target: usize) -> (r: Option<usize>)
        ensures
            match (r, find_addr(self@.free, target as int)) {
                (Some(i), Some(j)) => i as int == j && i < self@.free.len(),
                (None, None) => true,
                _ => false,
            },
    {
        let ghost l = blocks_view(self.free@);
        let n = self.free.len();
        let mut i: usize = 0;
        while i < n
            invariant
                0 <= i <= n,
                n == self.free@.len(),
                l == blocks_view(self.free@),
                forall|j: int| 0 <= j < i ==> (#[trigger] l[j]).0 > target,
            decreases n - i,
        {
            let b = self.free[i];
            proof {
                assert(l[i as int] == (b.addr as int, b.size as int));
                lemma_find_addr_unfold(l, target as int, i as int);
                assert(l.skip(i as int)[0] == l[i as int]);
            }
            if b.addr == target {
                return Some(i);
            }
            if b.addr < target {
                return None;
            }
            i = i + 1;
        }
        proof {
            lemma_find_addr_unfold(l, target as int, n as int);
            assert(l.skip(n as int) =~= Seq::<(int, int)>::empty());
        }
        None
    }
}


impl FreeListAllocator {
    /// Requests a block of `size` bytes aligned to `align` (a power of two).
    ///
    /// The first chained block large enough is carved: its high-address part
    /// is returned, and what is left stays chained. When nothing fits, whole
    /// pages are claimed from the growth primitive, chained as one block, and
    /// the search runs once more. An alignment above 16 is unsupported and
    /// fails at once; otherwise `None` comes back only when the growth
    /// primitive fails. A returned address is 16-byte aligned, meets the
    /// requested alignment, and its block is disjoint from every live
    /// allocation.
    pub fn allocate(&mut self, size: usize, align: usize) -> (r: Option<usize>)
        requires
            old(self).wf(),
            is_pow2(align),
        ensures
            final(self).wf(),
            ({
                let (rr, v2) = fl_alloc_spec(old(self)@, size as int, align as int);
                &&& final(self)@ == v2
                &&& match (r, rr) {
                    (Some(a), Some(b)) => a as int == b,
                    (None, None) => true,
                    _ => false,
                }
            }),
            match r {
                Some(a) => {
                    &&& a as int % 16 == 0
                    &&& a as int % (align as int) == 0
                    &&& forall|b: (int, int)|
                        old(self)@.live.contains(b) ==> ranges_disjoint(
                            (a as int, spec_full_size(size as int)),
                            b,
                        )
                },
                None => true,
            },
    {
        let ghost v0 = self@;
        if align > 16 {
            return None;
        }
        if size > MAX_MEMORY_BYTES {
            proof {
                lemma_full_size_props(size as int);
                let s = spec_full_size(size as int);
                assert forall|j: int| 0 <= j < v0.free.len() implies (#[trigger] v0.free[j]).1
                    < s by {
                    assert(block_wf(v0.free[j], v0.mem.len() as int));
                }
                lemma_find_fit_characterization(v0.free, s);
                lemma_round_up_props(s, PAGE_SIZE as int);
                let req = spec_round_up(s, PAGE_SIZE as int);
                let pages = req / (PAGE_SIZE as int);
                let endpages = v0.mem.len() as int / (PAGE_SIZE as int);
                vstd::arithmetic::div_mod::lemma_fundamental_div_mod(req, PAGE_SIZE as int);
                assert((PAGE_SIZE as int) * pages == pages * (PAGE_SIZE as int))
                    by (nonlinear_arith);
                assert(pages * PAGE_SIZE == req);
                vstd::arithmetic::div_mod::lemma_fundamental_div_mod(
                    v0.mem.len() as int,
                    PAGE_SIZE as int,
                );
                assert((PAGE_SIZE as int) * endpages == endpages * (PAGE_SIZE as int))
                    by (nonlinear_arith);
                assert(endpages * PAGE_SIZE == v0.mem.len());
                assert(pages * PAGE_SIZE > MAX_PAGES * PAGE_SIZE - endpages * PAGE_SIZE);
                assert(pages + endpages > MAX_PAGES) by (nonlinear_arith)
                    requires
                        pages * PAGE_SIZE > MAX_PAGES * PAGE_SIZE - endpages * PAGE_SIZE,
                        PAGE_SIZE > 0,
                ;
            }
            return None;
        }
        let s = full_size(size);
        proof {
            lemma_full_size_props(size as int);
        }
        match self.search_carve(s) {
            Some(p) => {
                let ghost i = find_fit(v0.free, s as int).unwrap();
                self.live = Ghost(self.live@.insert((p as int, s as int)));
                proof {
                    lemma_find_fit_characterization(v0.free, s as int);
                    if v0.free[i].1 - s >= 16 {
                        lemma_fl_carve_split_wf(v0, i, s as int);
                    } else {
                        lemma_fl_carve_exact_wf(v0, i, s as int);
                    }
                    assert(self@ =~= fl_alloc_spec(v0, size as int, align as int).1);
                    lemma_align16_covers(p, align);
                }
                Some(p)
            },
            None => {
                proof {
                    assert(is_pow2(65536usize)) by (bit_vector);
                    lemma_round_up_props(s as int, PAGE_SIZE as int);
                }
                let req = round_up(s, PAGE_SIZE);
                let pages = req / PAGE_SIZE;
                proof {
                    vstd::arithmetic::div_mod::lemma_fundamental_div_mod(
                        req as int,
                        PAGE_SIZE as int,
                    );
                    assert((PAGE_SIZE as int) * (pages as int) == (pages as int) * (
                    PAGE_SIZE as int)) by (nonlinear_arith);
                    assert(pages as int * PAGE_SIZE == req as int);
                    vstd::arithmetic::div_mod::lemma_fundamental_div_mod(
                        v0.mem.len() as int,
                        PAGE_SIZE as int,
                    );
                    let endpages = v0.mem.len() as int / (PAGE_SIZE as int);
                    assert((PAGE_SIZE as int) * endpages == endpages * (PAGE_SIZE as int))
                        by (nonlinear_arith);
                    assert(endpages * PAGE_SIZE == v0.mem.len());
                    assert(self.memory.pages() == endpages);
                }
                let prev = self.memory.grow_memory(pages);
                if prev == GROW_FAILED {
                    proof {
                        assert(self@ =~= v0);
                    }
                    return None;
                }
                proof {
                    assert((v0.mem.len() as int / (PAGE_SIZE as int) + pages) * PAGE_SIZE
                        <= MAX_PAGES * PAGE_SIZE) by (nonlinear_arith)
                        requires
                            v0.mem.len() as int / (PAGE_SIZE as int) + pages
                                <= MAX_PAGES as int,
                            PAGE_SIZE > 0,
                    ;
                    assert(v0.mem.len() + req <= MAX_MEMORY_BYTES) by (nonlinear_arith)
                        requires
                            (v0.mem.len() as int / (PAGE_SIZE as int) + pages as int) * (
                            PAGE_SIZE as int) <= MAX_PAGES * PAGE_SIZE,
                            (v0.mem.len() as int / (PAGE_SIZE as int)) * (PAGE_SIZE as int)
                                == v0.mem.len() as int,
                            pages as int * PAGE_SIZE == req as int,
                            MAX_PAGES * PAGE_SIZE == MAX_MEMORY_BYTES,
                    ;
                }
                let base = prev * PAGE_SIZE;
                proof {
                    assert(base == v0.mem.len());
                    assert forall|j: int|
                        0 <= j < v0.free.len() implies block_wf(
                        #[trigger] v0.free[j],
                        MAX_MEMORY_BYTES as int,
                    ) && ranges_disjoint(v0.free[j], (base as int, req as int)) by {
                        assert(block_wf(v0.free[j], v0.mem.len() as int));
                    }
                    assert(self@.free == v0.free);
                    assert(self@.mem =~= v0.mem + Seq::new(req as nat, |i: int| 0u8));
                }
                let ghost v1 = FreeListView {
                    free: insert_free(v0.free, base as int, req as int),
                    mem: v0.mem + Seq::new(req as nat, |i: int| 0u8),
                    ..v0
                };
                self.insert_block(base, req);
                proof {
                    lemma_fl_grow_wf(v0, req as int);
                    assert(self@ =~= v1);
                    lemma_find_fit_characterization(v1.free, s as int);
                    assert(find_fit(v1.free, s as int) is Some) by {
                        if find_fit(v1.free, s as int) is None {
                            let iw = choose|i: int|
                                0 <= i < v1.free.len() && (#[trigger] v1.free[i]).1 >= req;
                            assert(v1.free[iw].1 < s as int);
                        }
                    }
                }
                match self.search_carve(s) {
                    Some(p) => {
                        let ghost j = find_fit(v1.free, s as int).unwrap();
                        self.live = Ghost(self.live@.insert((p as int, s as int)));
                        proof {
                            lemma_find_fit_characterization(v1.free, s as int);
                            if v1.free[j].1 - s >= 16 {
                                lemma_fl_carve_split_wf(v1, j, s as int);
                            } else {
                                lemma_fl_carve_exact_wf(v1, j, s as int);
                            }
                            assert(self@ =~= fl_alloc_spec(v0, size as int, align as int).1);
                            lemma_align16_covers(p, align);
                        }
                        Some(p)
                    },
                    None => {
                        proof {
                            assert(false);
                        }
                        None
                    },
                }
            },
        }
    }

    /// Releases a block previously returned by `allocate` with the identical
    /// descriptor, merging it with any chained neighbour it touches, in both
    /// directions: after any sequence of releases, no two chained blocks are
    /// adjacent.
    pub fn deallocate(&mut self, addr: usize, size: usize, _align: usize)
        requires
            old(self).wf(),
            old(self)@.live.contains((addr as int, spec_full_size(size as int))),
        ensures
            final(self).wf(),
            final(self)@ == fl_dealloc_spec(old(self)@, addr as int, size as int),
    {
        let ghost v0 = self@;
        proof {
            lemma_full_size_props(size as int);
            assert(block_wf((addr as int, spec_full_size(size as int)), v0.mem.len() as int));
        }
        let s = full_size(size);
        proof {
            assert forall|j: int|
                0 <= j < v0.free.len() implies block_wf(#[trigger] v0.free[j],
                MAX_MEMORY_BYTES as int,
            ) && ranges_disjoint(v0.free[j], (addr as int, s as int)) by {
                assert(block_wf(v0.free[j], v0.mem.len() as int));
                assert(ranges_disjoint(v0.free[j], (addr as int, s as int)));
            }
        }
        self.insert_block(addr, s);
        self.live = Ghost(self.live@.remove((addr as int, s as int)));
        proof {
            lemma_fl_dealloc_wf(v0, addr as int, s as int);
            assert(self@ =~= fl_dealloc_spec(v0, addr as int, size as int));
        }
    }

    /// Changes the size of the block at `addr`, previously returned by
    /// `allocate` with the identical `size` and `align`. Shrinking is in
    /// place, releasing the tail when it can stand as a block of its own;
    /// growing is in place exactly when a chained block starts at the old end
    /// and can take the difference; every other case falls back to
    /// allocate-copy-release. Returns the block's new address, or `None`
    /// (leaving the block untouched) when growth fails.
    pub fn reallocate(&mut self, addr: usize, size: usize, align: usize, new_size: usize) -> (r:
        Option<usize>)
        requires
            old(self).wf(),
            is_pow2(align),
            old(self)@.live.contains((addr as int, spec_full_size(size as int))),
        ensures
            final(self).wf(),
            ({
                let (rr, v2) = fl_realloc_spec(
                    old(self)@,
                    addr as int,
                    size as int,
                    align as int,
                    new_size as int,
                );
                &&& final(self)@ == v2
                &&& match (r, rr) {
                    (Some(a), Some(b)) => a as int == b,
                    (None, None) => true,
                    _ => false,
                }
            }),
    {
        let ghost v0 = self@;
        proof {
            lemma_full_size_props(size as int);
            lemma_full_size_props(new_size as int);
            assert(block_wf((addr as int, spec_full_size(size as int)), v0.mem.len() as int));
        }
        let old_s = full_size(size);
        if new_size > MAX_MEMORY_BYTES {
            // The request can never be met in place: it exceeds the whole
            // address space.
            proof {
                let target = addr as int + old_s;
                lemma_find_addr_characterization(v0.free, target);
                assert(seq_blocks_wf_weak(v0.free)) by {
                    assert forall|k: int|
                        0 <= k < v0.free.len() implies (#[trigger] v0.free[k]).1 >= 0 by {
                        assert(block_wf(v0.free[k], v0.mem.len() as int));
                    }
                }
                match find_addr(v0.free, target) {
                    Some(i) => {
                        assert(block_wf(v0.free[i], v0.mem.len() as int));
                        assert(v0.free[i].1 < spec_full_size(new_size as int) - old_s);
                    },
                    None => {},
                }
            }
            return self.realloc_move(addr, size, align, new_size);
        }
        let new_s = full_size(new_size);
        if new_s <= old_s {
            let diff = old_s - new_s;
            if diff >= 16 {
                proof {
                    assert forall|j: int|
                        0 <= j < v0.free.len() implies block_wf(#[trigger] v0.free[j],
                        MAX_MEMORY_BYTES as int,
                    ) && ranges_disjoint(v0.free[j], (addr as int + new_s, diff as int)) by {
                        assert(block_wf(v0.free[j], v0.mem.len() as int));
                        assert(ranges_disjoint(v0.free[j], (addr as int, old_s as int)));
                    }
                }
                self.insert_block(addr + new_s, diff);
            }
            self.live = Ghost(
                self.live@.remove((addr as int, old_s as int)).insert((addr as int, new_s as int)),
            );
            proof {
                lemma_fl_shrink_wf(v0, addr as int, old_s as int, new_s as int);
                assert(self@ =~= fl_realloc_spec(v0, addr as int, size as int, align as int,
                    new_size as int).1);
            }
            return Some(addr);
        }
        let target = addr + old_s;
        let needed = new_s - old_s;
        proof {
            assert(seq_blocks_wf_weak(v0.free)) by {
                assert forall|k: int| 0 <= k < v0.free.len() implies (#[trigger] v0.free[k]).1
                    >= 0 by {
                    assert(block_wf(v0.free[k], v0.mem.len() as int));
                }
            }
            lemma_find_addr_characterization(v0.free, target as int);
        }
        match self.find_node_at(target) {
            Some(i) => {
                let node = self.free[i];
                proof {
                    assert(v0.free[i as int] == (node.addr as int, node.size as int));
                    assert(block_wf(v0.free[i as int], v0.mem.len() as int));
                }
                if node.size >= needed {
                    if node.size - needed >= 16 {
                        let ghost f1 = self.free@;
                        let rest = FreeBlock { addr: target + needed, size: node.size - needed };
                        self.free[i] = rest;
                        proof {
                            lemma_blocks_view_update(f1, i as int, rest);
                        }
                    } else {
                        let ghost f1 = self.free@;
                        self.free.remove(i);
                        proof {
                            lemma_blocks_view_remove(f1, i as int);
                        }
                    }
                    self.live = Ghost(
                        self.live@.remove((addr as int, old_s as int)).insert(
                            (addr as int, new_s as int),
                        ),
                    );
                    proof {
                        lemma_fl_grow_in_place_wf(v0, addr as int, old_s as int, needed as int,
                            i as int);
                        assert(self@ =~= fl_realloc_spec(v0, addr as int, size as int,
                            align as int, new_size as int).1);
                    }
                    return Some(addr);
                }
                self.realloc_move(addr, size, align, new_size)
            },
            None => self.realloc_move(addr, size, align, new_size),
        }
    }

    /// The allocate-new, copy, release-old path of `reallocate`. The bytes
    /// copied are the first `min(size, new_size)` of the block.
    fn realloc_move(&mut self, addr: usize, size: usize, align: usize, new_size: usize) -> (r:
        Option<usize>)
        requires
            old(self).wf(),
            is_pow2(align),
            old(self)@.live.contains((addr as int, spec_full_size(size as int))),
        ensures
            final(self).wf(),
            ({
                let (rr, v2) = fl_realloc_move_spec(
                    old(self)@,
                    addr as int,
                    size as int,
                    align as int,
                    new_size as int,
                );
                &&& final(self)@ == v2
                &&& match (r, rr) {
                    (Some(a), Some(b)) => a as int == b,
                    (None, None) => true,
                    _ => false,
                }
            }),
    {
        let ghost v0 = self@;
        proof {
            lemma_full_size_props(size as int);
            lemma_full_size_props(new_size as int);
            lemma_fl_alloc_live(v0, new_size as int, align as int);
        }
        match self.allocate(new_size, align) {
            None => None,
            Some(np) => {
                let ghost v1 = self@;
                let len = if size < new_size {
                    size
                } else {
                    new_size
                };
                proof {
                    assert(v1.live.contains((np as int, spec_full_size(new_size as int))));
                    assert(v1.live.contains((addr as int, spec_full_size(size as int))));
                    assert(block_wf((np as int, spec_full_size(new_size as int)),
                        v1.mem.len() as int));
                    assert(block_wf((addr as int, spec_full_size(size as int)),
                        v1.mem.len() as int));
                }
                self.memory.copy_bytes(addr, np, len);
                proof {
                    assert(self@ =~= (FreeListView {
                        mem: copy_region(v1.mem, addr as int, np as int, len as int),
                        ..v1
                    }));
                    lemma_fl_wf_frame(v1, self@);
                    assert(self@.live.contains((addr as int, spec_full_size(size as int))));
                }
                self.deallocate(addr, size, align);
                proof {
                    assert(self@ =~= fl_realloc_move_spec(v0, addr as int, size as int,
                        align as int, new_size as int).1);
                }
                Some(np)
            },
        }
    }

    /// Writes one byte into the linear memory; `addr` must lie in the
    /// claimed region (callers write only into blocks they own).
    pub fn write_byte(&mut self, addr: usize, val: u8)
        requires
            old(self).wf(),
            addr < old(self)@.mem.len(),
        ensures
            final(self).wf(),
            final(self)@ == (FreeListView {
                mem: old(self)@.mem.update(addr as int, val),
                ..old(self)@
            }),
    {
        self.memory.write_byte(addr, val);
        proof {
            assert(self@ =~= (FreeListView {
                mem: old(self)@.mem.update(addr as int, val),
                ..old(self)@
            }));
            lemma_fl_wf_frame(old(self)@, self@);
        }
    }

    /// Reads one byte of the linear memory.
    pub fn read_byte(&self, addr: usize) -> (r: u8)
        requires
            addr < self@.mem.len(),
        ensures
            r == self@.mem[addr as int],
    {
        self.memory.read_byte(addr)
    }
}


/// Law: once every allocation has been released, a single request for any
/// size the claimed region can hold succeeds without further growth — the
/// chain has coalesced back into one block.
///
/// The invariant `wf` holds after any sequence of operations, and the live
/// set is empty exactly when every block from that sequence was released, in
/// whatever order.
pub proof fn lemma_full_coalescing(v: FreeListView, size: int, align: int)
    requires
        v.wf(),
        v.live == Set::<(int, int)>::empty(),
        v.mem.len() > 0,
        1 <= align <= 16,
        0 <= size,
        spec_full_size(size) <= v.mem.len(),
    ensures
        fl_alloc_spec(v, size, align).0 is Some,
        fl_alloc_spec(v, size, align).1.mem == v.mem,
{
    let m = v.mem.len() as int;
    let s = spec_full_size(size);
    lemma_full_size_props(size);
    assert(seq_blocks_wf_weak(v.free)) by {
        assert forall|k: int| 0 <= k < v.free.len() implies (#[trigger] v.free[k]).1 >= 0 by {
            assert(block_wf(v.free[k], m));
        }
    }
    assert forall|x: int| 0 <= x < m implies covers(v.free, x) by {
        assert(covers(v.free, x) || in_live(v.live, x));
        if in_live(v.live, x) {
            let b = choose|b: (int, int)| #[trigger] v.live.contains(b) && b.0 <= x < b.0 + b.1;
        }
    }
    assert(!covers(v.free, -1)) by {
        if covers(v.free, -1) {
            let k = choose|k: int|
                0 <= k < v.free.len() && (#[trigger] v.free[k]).0 <= -1 < v.free[k].0
                    + v.free[k].1;
            assert(block_wf(v.free[k], m));
        }
    }
    assert(!covers(v.free, m)) by {
        if covers(v.free, m) {
            let k = choose|k: int|
                0 <= k < v.free.len() && (#[trigger] v.free[k]).0 <= m < v.free[k].0 + v.free[
                    k
                ].1;
            assert(block_wf(v.free[k], m));
        }
    }
    lemma_max_interval_is_block(v.free, 0, m);
    let iw = choose|i: int| 0 <= i < v.free.len() && #[trigger] v.free[i] == (0int, m);
    lemma_find_fit_characterization(v.free, s);
    assert(find_fit(v.free, s) is Some) by {
        if find_fit(v.free, s) is None {
            assert(v.free[iw].1 < s);
        }
    }
}

/// Releasing the three contiguous blocks in the order middle, high, low
/// keeps the chain sorted and extends its coverage by exactly their span.
#[verifier::rlimit(100)]
#[verifier::spinoff_prover]
proof fn lemma_triple_release(v: FreeListView, a: int, s: int)
    requires
        v.wf(),
        16 <= s,
        s % 16 == 0,
        v.live.contains((a, s)),
        v.live.contains((a + s, s)),
        v.live.contains((a + 2 * s, s)),
    ensures
        ({
            let v3 = fl_dealloc_spec(
                fl_dealloc_spec(fl_dealloc_spec(v, a + s, s), a + 2 * s, s),
                a,
                s,
            );
            &&& fl_sorted(v3.free)
            &&& seq_blocks_wf(v3.free, v.mem.len() as int)
            &&& forall|x: int|
                #![trigger covers(v3.free, x)]
                covers(v3.free, x) <==> (covers(v.free, x) || (a <= x < a + 3 * s))
        }),
{
    let m = v.mem.len() as int;
    lemma_full_size_props(s);
    assert(spec_full_size(s) == s);
    assert(block_wf((a, s), m));
    assert(block_wf((a + 2 * s, s), m));
    let v1 = fl_dealloc_spec(v, a + s, s);
    lemma_fl_dealloc_wf(v, a + s, s);
    assert(v1.live.contains((a + 2 * s, s)));
    let v2 = fl_dealloc_spec(v1, a + 2 * s, s);
    lemma_fl_dealloc_wf(v1, a + 2 * s, s);
    assert(v2.live.contains((a, s)));
    let v3 = fl_dealloc_spec(v2, a, s);
    lemma_fl_dealloc_wf(v2, a, s);
    assert forall|i: int|
        0 <= i < v.free.len() implies ranges_disjoint(#[trigger] v.free[i], (a + s, s)) by {
        assert(v.live.contains((a + s, s)));
    }
    lemma_insert_free_props(v.free, a + s, s, m);
    assert forall|i: int|
        0 <= i < v1.free.len() implies ranges_disjoint(#[trigger] v1.free[i], (a + 2 * s, s)) by {
        assert(v1.live.contains((a + 2 * s, s)));
    }
    lemma_insert_free_props(v1.free, a + 2 * s, s, m);
    assert forall|i: int|
        0 <= i < v2.free.len() implies ranges_disjoint(#[trigger] v2.free[i], (a, s)) by {
        assert(v2.live.contains((a, s)));
    }
    lemma_insert_free_props(v2.free, a, s, m);
    assert forall|x: int|
        covers(v3.free, x) <==> (covers(v.free, x) || (a <= x < a + 3 * s)) by {
        assert(covers(v1.free, x) <==> covers(v.free, x) || (a + s <= x < a + 2 * s));
        assert(covers(v2.free, x) <==> covers(v1.free, x) || (a + 2 * s <= x < a + 3 * s));
        assert(covers(v3.free, x) <==> covers(v2.free, x) || (a <= x < a + s));
    }
}

/// Law: releasing three originally-contiguous live blocks in the order
/// middle, high, low leaves one chained block spanning all three — the merge
/// cascades in both directions. The blocks' outer neighbours must still be
/// allocated, or be the region's boundary.
#[verifier::rlimit(100)]
#[verifier::spinoff_prover]
pub proof fn lemma_merge_cascade(v: FreeListView, a: int, s: int)
    requires
        v.wf(),
        16 <= s,
        s % 16 == 0,
        v.live.contains((a, s)),
        v.live.contains((a + s, s)),
        v.live.contains((a + 2 * s, s)),
        a == 0 || in_live(v.live, a - 1),
        a + 3 * s == v.mem.len() || in_live(v.live, a + 3 * s),
    ensures
        ({
            let v3 = fl_dealloc_spec(
                fl_dealloc_spec(fl_dealloc_spec(v, a + s, s), a + 2 * s, s),
                a,
                s,
            );
            exists|i: int| 0 <= i < v3.free.len() && #[trigger] v3.free[i] == (a, 3 * s)
        }),
{
    let m = v.mem.len() as int;
    lemma_triple_release(v, a, s);
    let v3 = fl_dealloc_spec(fl_dealloc_spec(fl_dealloc_spec(v, a + s, s), a + 2 * s, s), a, s);
    assert(block_wf((a, s), m));
    assert forall|x: int| a <= x < a + 3 * s implies covers(v3.free, x) by {
        assert(covers(v3.free, x) <==> (covers(v.free, x) || (a <= x < a + 3 * s)));
    }
    assert(!covers(v3.free, a - 1)) by {
        assert(covers(v3.free, a - 1) <==> (covers(v.free, a - 1) || (a <= a - 1 < a + 3 * s)));
        if a == 0 {
            if covers(v.free, a - 1) {
                let k = choose|k: int|
                    0 <= k < v.free.len() && (#[trigger] v.free[k]).0 <= a - 1 < v.free[k].0
                        + v.free[k].1;
                assert(block_wf(v.free[k], m));
            }
        } else {
            let b = choose|b: (int, int)| #[trigger] v.live.contains(b) && b.0 <= a - 1 < b.0 + b.1;
            if covers(v.free, a - 1) {
                let k = choose|k: int|
                    0 <= k < v.free.len() && (#[trigger] v.free[k]).0 <= a - 1 < v.free[k].0
                        + v.free[k].1;
                assert(ranges_disjoint(v.free[k], b));
            }
        }
    }
    assert(!covers(v3.free, a + 3 * s)) by {
        let y = a + 3 * s;
        assert(covers(v3.free, y) <==> (covers(v.free, y) || (a <= y < a + 3 * s)));
        if y == m {
            if covers(v.free, y) {
                let k = choose|k: int|
                    0 <= k < v.free.len() && (#[trigger] v.free[k]).0 <= y < v.free[k].0 + v.free[
                        k
                    ].1;
                assert(block_wf(v.free[k], m));
            }
        } else {
            let b = choose|b: (int, int)| #[trigger] v.live.contains(b) && b.0 <= y < b.0 + b.1;
            if covers(v.free, y) {
                let k = choose|k: int|
                    0 <= k < v.free.len() && (#[trigger] v.free[k]).0 <= y < v.free[k].0 + v.free[
                        k
                    ].1;
                assert(ranges_disjoint(v.free[k], b));
            }
        }
    }
    assert(seq_blocks_wf_weak(v3.free)) by {
        assert forall|k: int| 0 <= k < v3.free.len() implies (#[trigger] v3.free[k]).1 >= 0 by {
            assert(block_wf(v3.free[k], m));
        }
    }
    lemma_max_interval_is_block(v3.free, a, a + 3 * s);
}

/// Law: with a supported alignment, an allocation comes back empty only when
/// nothing chained fits and the growth primitive cannot extend the region.
pub proof fn lemma_alloc_failure_is_growth_failure(v: FreeListView, size: int, align: int)
    requires
        v.wf(),
        1 <= align <= 16,
        0 <= size,
    ensures
        fl_alloc_spec(v, size, align).0 is None ==> {
            let s = spec_full_size(size);
            &&& find_fit(v.free, s) is None
            &&& v.mem.len() as int / (PAGE_SIZE as int) + spec_round_up(s, PAGE_SIZE as int) / (
            PAGE_SIZE as int) > MAX_PAGES
        },
{
    let s = spec_full_size(size);
    lemma_full_size_props(size);
    lemma_round_up_props(s, PAGE_SIZE as int);
    let req = spec_round_up(s, PAGE_SIZE as int);
    let pages = req / (PAGE_SIZE as int);
    let endpages = v.mem.len() as int / (PAGE_SIZE as int);
    match find_fit(v.free, s) {
        Some(i) => {},
        None => {
            if endpages + pages > MAX_PAGES {
            } else {
                // Growth succeeds and the fresh region must fit the request:
                // the retried search cannot fail.
                vstd::arithmetic::div_mod::lemma_fundamental_div_mod(req, PAGE_SIZE as int);
                assert((PAGE_SIZE as int) * pages == pages * (PAGE_SIZE as int))
                    by (nonlinear_arith);
                assert(pages * PAGE_SIZE == req);
                vstd::arithmetic::div_mod::lemma_fundamental_div_mod(
                    v.mem.len() as int,
                    PAGE_SIZE as int,
                );
                assert((PAGE_SIZE as int) * endpages == endpages * (PAGE_SIZE as int))
                    by (nonlinear_arith);
                assert(endpages * PAGE_SIZE == v.mem.len());
                assert((endpages + pages) * PAGE_SIZE <= MAX_PAGES * PAGE_SIZE)
                    by (nonlinear_arith)
                    requires
                        endpages + pages <= MAX_PAGES as int,
                        PAGE_SIZE > 0,
                ;
                assert(v.mem.len() + req <= MAX_MEMORY_BYTES) by (nonlinear_arith)
                    requires
                        (endpages + pages) * (PAGE_SIZE as int) <= MAX_PAGES * PAGE_SIZE,
                        endpages * (PAGE_SIZE as int) == v.mem.len() as int,
                        pages * (PAGE_SIZE as int) == req,
                        MAX_PAGES * PAGE_SIZE == MAX_MEMORY_BYTES,
                ;
                lemma_fl_grow_wf(v, req);
                let base = v.mem.len() as int;
                let l2 = insert_free(v.free, base, req);
                lemma_find_fit_characterization(l2, s);
                assert(find_fit(l2, s) is Some) by {
                    if find_fit(l2, s) is None {
                        let iw = choose|i: int| 0 <= i < l2.len() && (#[trigger] l2[i]).1 >= req;
                        assert(l2[iw].1 < s);
                    }
                }
            }
        },
    }
}

/// Law: the outcome of every operation depends on the bookkeeping state
/// alone, so after a reset the first allocation lands on the same address as
/// after any other reset.
pub proof fn lemma_reset_repeats_first_address(
    v1: FreeListView,
    v2: FreeListView,
    size: int,
    align: int,
)
    requires
        v1 == fl_fresh(),
        v2 == fl_fresh(),
    ensures
        fl_alloc_spec(v1, size, align) == fl_alloc_spec(v2, size, align),
{
}



} // verus!
