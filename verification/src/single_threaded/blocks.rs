//! Free-block bookkeeping shared by the allocation strategies.
//!
//! A free chain is held as a vector of explicit nodes rather than as links
//! threaded through the unused memory itself; the mathematical image of a
//! chain is a sequence of `(address, size)` pairs.

use vstd::prelude::*;

verus! {

/// Bookkeeping for one currently unused block: its start address and size in
/// bytes. Valid only while the block is free; a block leaves the chain the
/// instant it is returned by `alloc`.
#[derive(Clone, Copy)]
pub struct FreeBlock {
    pub addr: usize,
    pub size: usize,
}

/// The mathematical image of a block list: `(address, size)` pairs.
pub open spec fn blocks_view(v: Seq<FreeBlock>) -> Seq<(int, int)> {
    v.map(|i: int, b: FreeBlock| (b.addr as int, b.size as int))
}

/// Whether byte `x` lies in one of the blocks of `l`.
pub open spec fn covers(l: Seq<(int, int)>, x: int) -> bool {
    exists|i: int| #![trigger l[i]] 0 <= i < l.len() && l[i].0 <= x < l[i].0 + l[i].1
}

/// Two half-open byte ranges that do not intersect.
pub open spec fn ranges_disjoint(a: (int, int), b: (int, int)) -> bool {
    a.0 + a.1 <= b.0 || b.0 + b.1 <= a.0
}

/// A block in good standing: aligned to and no smaller than the minimum
/// block size, a whole multiple of it, and within the first `limit` bytes.
pub open spec fn block_wf(b: (int, int), limit: int) -> bool {
    &&& b.0 >= 0
    &&& b.0 % 16 == 0
    &&& b.1 % 16 == 0
    &&& b.1 >= 16
    &&& b.0 + b.1 <= limit
}

/// Every block of the chain is in good standing below `limit`.
pub open spec fn seq_blocks_wf(l: Seq<(int, int)>, limit: int) -> bool {
    forall|i: int| 0 <= i < l.len() ==> block_wf(#[trigger] l[i], limit)
}

/// The blocks of the chain are pairwise disjoint.
pub open spec fn seq_blocks_disjoint(l: Seq<(int, int)>) -> bool {
    forall|i: int, j: int|
        0 <= i < l.len() && 0 <= j < l.len() && i != j ==> ranges_disjoint(
            #[trigger] l[i],
            #[trigger] l[j],
        )
}

/// Every block of the set is in good standing below `limit`.
pub open spec fn set_blocks_wf(s: Set<(int, int)>, limit: int) -> bool {
    forall|b: (int, int)| #[trigger] s.contains(b) ==> block_wf(b, limit)
}

/// The blocks of the set are pairwise disjoint.
pub open spec fn set_blocks_disjoint(s: Set<(int, int)>) -> bool {
    forall|a: (int, int), b: (int, int)|
        #[trigger] s.contains(a) && #[trigger] s.contains(b) && a != b ==> ranges_disjoint(a, b)
}

/// No block of the chain intersects a block of the set.
pub open spec fn seq_set_disjoint(l: Seq<(int, int)>, s: Set<(int, int)>) -> bool {
    forall|i: int, b: (int, int)|
        0 <= i < l.len() && #[trigger] s.contains(b) ==> ranges_disjoint(#[trigger] l[i], b)
}

/// The first-fit choice: the index of the first block of `l` that can hold
/// `s` bytes.
pub open spec fn find_fit(l: Seq<(int, int)>, s: int) -> Option<int>
    decreases l.len(),
{
    if l.len() == 0 {
        None
    } else if l[0].1 >= s {
        Some(0)
    } else {
        match find_fit(l.skip(1), s) {
            Some(i) => Some(i + 1),
            None => None,
        }
    }
}

/// Removing a node commutes with taking the view.
pub proof fn lemma_blocks_view_remove(v: Seq<FreeBlock>, i: int)
    requires
        0 <= i < v.len(),
    ensures
        blocks_view(v.remove(i)) == blocks_view(v).remove(i),
{
    assert(blocks_view(v.remove(i)) =~= blocks_view(v).remove(i));
}

/// Inserting a node commutes with taking the view.
pub proof fn lemma_blocks_view_insert(v: Seq<FreeBlock>, i: int, b: FreeBlock)
    requires
        0 <= i <= v.len(),
    ensures
        blocks_view(v.insert(i, b)) == blocks_view(v).insert(i, (b.addr as int, b.size as int)),
{
    assert(blocks_view(v.insert(i, b)) =~= blocks_view(v).insert(i, (b.addr as int, b.size as int)));
}

/// Updating a node commutes with taking the view.
pub proof fn lemma_blocks_view_update(v: Seq<FreeBlock>, i: int, b: FreeBlock)
    requires
        0 <= i < v.len(),
    ensures
        blocks_view(v.update(i, b)) == blocks_view(v).update(i, (b.addr as int, b.size as int)),
{
    assert(blocks_view(v.update(i, b)) =~= blocks_view(v).update(i, (b.addr as int, b.size as int)));
}

/// Appending a node commutes with taking the view.
pub proof fn lemma_blocks_view_push(v: Seq<FreeBlock>, b: FreeBlock)
    ensures
        blocks_view(v.push(b)) == blocks_view(v).push((b.addr as int, b.size as int)),
{
    assert(blocks_view(v.push(b)) =~= blocks_view(v).push((b.addr as int, b.size as int)));
}

/// `find_fit` returns the least index whose block holds `s` bytes, and `None`
/// exactly when no block does.
pub proof fn lemma_find_fit_characterization(l: Seq<(int, int)>, s: int)
    ensures
        match find_fit(l, s) {
            Some(i) => 0 <= i < l.len() && l[i].1 >= s && (forall|j: int|
                0 <= j < i ==> l[j].1 < s),
            None => forall|j: int| 0 <= j < l.len() ==> l[j].1 < s,
        },
    decreases l.len(),
{
    if l.len() == 0 {
    } else if l[0].1 >= s {
    } else {
        lemma_find_fit_characterization(l.skip(1), s);
        assert(forall|j: int| 0 <= j < l.skip(1).len() ==> l.skip(1)[j] == l[j + 1]);
        match find_fit(l.skip(1), s) {
            Some(i) => {
                assert(l[i + 1] == l.skip(1)[i]);
                assert(forall|j: int| 1 <= j < i + 1 ==> l[j] == l.skip(1)[j - 1]);
            },
            None => {
                assert(forall|j: int| 1 <= j < l.len() ==> l[j] == l.skip(1)[j - 1]);
            },
        }
    }
}

/// First-fit search of a block chain, as executable code: the index of the
/// first block large enough for `s` bytes.
pub fn scan_first_fit(v: &Vec<FreeBlock>, s: usize) -> (r: Option<usize>)
    ensures
        match (r, find_fit(blocks_view(v@), s as int)) {
            (Some(i), Some(j)) => i as int == j && 0 <= i < v@.len() && v@[i as int].size >= s,
            (None, None) => true,
            _ => false,
        },
{
    proof {
        lemma_find_fit_characterization(blocks_view(v@), s as int);
    }
    let ghost l = blocks_view(v@);
    let n = v.len();
    let mut i: usize = 0;
    while i < n
        invariant
            0 <= i <= n,
            n == v@.len(),
            l == blocks_view(v@),
            forall|j: int| 0 <= j < i ==> #[trigger] l[j].1 < s,
        decreases n - i,
    {
        if v[i].size >= s {
            proof {
                lemma_find_fit_characterization(l, s as int);
                assert(l[i as int].1 == v@[i as int].size as int);
            }
            return Some(i);
        }
        proof {
            assert(l[i as int].1 == v@[i as int].size as int);
        }
        i = i + 1;
    }
    proof {
        lemma_find_fit_characterization(l, s as int);
    }
    None
}

} // verus!
