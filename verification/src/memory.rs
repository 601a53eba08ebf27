//! The page-growth primitive: a linear memory granted in whole pages.
//!
//! The allocators consume this through a narrow contract: `grow_memory(pages)`
//! extends the address space by whole pages and returns the page index at
//! which the new region starts, or [`GROW_FAILED`] when the fixed capacity
//! would be exceeded. Memory never shrinks; new pages are zeroed.

use crate::{MAX_PAGES, PAGE_SIZE};
use vstd::prelude::*;

verus! {

/// The sentinel a failed growth request returns.
pub const GROW_FAILED: usize = usize::MAX;

/// The bytes after copying `len` bytes of `m` from `src` to `dst`.
pub open spec fn copy_region(m: Seq<u8>, src: int, dst: int, len: int) -> Seq<u8> {
    Seq::new(m.len(), |i: int| if dst <= i < dst + len { m[src + (i - dst)] } else { m[i] })
}

/// A linear address space that grows monotonically in whole pages.
///
/// Addresses are byte offsets from 0. The space starts empty and can reach at
/// most [`MAX_PAGES`] pages.
pub struct LinearMemory {
    data: Vec<u8>,
}

impl View for LinearMemory {
    type V = Seq<u8>;

    closed spec fn view(&self) -> Seq<u8> {
        self.data@
    }
}

impl LinearMemory {
    /// The current extent, in bytes.
    pub open spec fn size_bytes(&self) -> int {
        self@.len() as int
    }

    /// The current extent, in whole pages.
    pub open spec fn pages(&self) -> int {
        self.size_bytes() / (PAGE_SIZE as int)
    }

    /// The extent is always a whole number of pages, within capacity.
    pub open spec fn wf(&self) -> bool {
        &&& self@.len() % (PAGE_SIZE as nat) == 0
        &&& self@.len() <= (MAX_PAGES * PAGE_SIZE) as nat
    }

    /// A fresh, empty linear memory: nothing claimed yet.
    pub fn new() -> (r: LinearMemory)
        ensures
            r@ == Seq::<u8>::empty(),
            r.wf(),
    {
        LinearMemory { data: Vec::new() }
    }

    /// The extent in bytes, as an executable value.
    pub fn len_bytes(&self) -> (r: usize)
        ensures
            r == self.size_bytes(),
    {
        self.data.len()
    }

    /// Extends the memory by `pages` whole pages of zeroes.
    ///
    /// Returns the page index marking the start of the newly granted region,
    /// or [`GROW_FAILED`] (leaving the memory unchanged) when the request
    /// would push the extent past [`MAX_PAGES`] pages.
    pub fn grow_memory(&mut self, pages: usize) -> (r: usize)
        requires
            old(self).wf(),
        ensures
            final(self).wf(),
            old(self).pages() + pages <= MAX_PAGES ==> {
                &&& r == old(self).pages()
                &&& final(self)@ == old(self)@ + Seq::new((pages * PAGE_SIZE) as nat, |i: int| 0u8)
            },
            old(self).pages() + pages > MAX_PAGES ==> {
                &&& r == GROW_FAILED
                &&& final(self)@ == old(self)@
            },
    {
        proof {
            assert(self@.len() == self.pages() * PAGE_SIZE);
        }
        let cur_pages = self.data.len() / PAGE_SIZE;
        if pages > MAX_PAGES - cur_pages {
            return GROW_FAILED;
        }
        let add_bytes = pages * PAGE_SIZE;
        let ghost orig = self.data@;
        let mut k: usize = 0;
        while k < add_bytes
            invariant
                k <= add_bytes,
                self.data@ == orig + Seq::new(k as nat, |i: int| 0u8),
            decreases add_bytes - k,
        {
            self.data.push(0u8);
            proof {
                assert(self.data@ =~= orig + Seq::new((k + 1) as nat, |i: int| 0u8));
            }
            k = k + 1;
        }
        cur_pages
    }

    /// Reads the byte at `addr`.
    pub fn read_byte(&self, addr: usize) -> (r: u8)
        requires
            addr < self@.len(),
        ensures
            r == self@[addr as int],
    {
        self.data[addr]
    }

    /// Overwrites the byte at `addr`.
    pub fn write_byte(&mut self, addr: usize, val: u8)
        requires
            addr < old(self)@.len(),
        ensures
            final(self)@ == old(self)@.update(addr as int, val),
    {
        self.data[addr] = val;
    }

    /// Copies `len` bytes from `src` to `dst`, as if through a buffer: the
    /// bytes read are those present before the call.
    pub fn copy_bytes(&mut self, src: usize, dst: usize, len: usize)
        requires
            src + len <= old(self)@.len(),
            dst + len <= old(self)@.len(),
        ensures
            final(self)@ == copy_region(old(self)@, src as int, dst as int, len as int),
    {
        let n = self.data.len();
        let mut buffer: Vec<u8> = Vec::new();
        let mut k: usize = 0;
        while k < len
            invariant
                k <= len,
                src + len <= n,
                n == self.data@.len(),
                buffer@.len() == k,
                self.data@ == old(self)@,
                forall|i: int| 0 <= i < k ==> buffer@[i] == self.data@[src + i],
            decreases len - k,
        {
            let b = self.data[src + k];
            buffer.push(b);
            k = k + 1;
        }
        let mut j: usize = 0;
        while j < len
            invariant
                j <= len,
                src + len <= n,
                dst + len <= n,
                n == self.data@.len(),
                buffer@.len() == len,
                old(self)@.len() == n,
                forall|i: int| 0 <= i < len ==> buffer@[i] == old(self)@[src + i],
                forall|i: int| dst <= i < dst + j ==> self.data@[i] == old(self)@[src + (i - dst)],
                forall|i: int|
                    0 <= i < self.data@.len() && !(dst <= i < dst + j) ==> self.data@[i] == old(
                        self,
                    )@[i],
            decreases len - j,
        {
            let b = buffer[j];
            self.data[dst + j] = b;
            j = j + 1;
        }
        proof {
            assert(self.data@ =~= copy_region(old(self)@, src as int, dst as int, len as int));
        }
    }

    /// Restores the empty initial state; only tests ever call this.
    pub fn reset(&mut self)
        ensures
            final(self)@ == Seq::<u8>::empty(),
            final(self).wf(),
    {
        self.data = Vec::new();
    }
}


/// Law: a byte written at an address reads back unchanged, and no other
/// address is disturbed — a written pattern survives until overwritten.
pub proof fn lemma_write_read_round_trip(m: Seq<u8>, addr: int, val: u8)
    requires
        0 <= addr < m.len(),
    ensures
        m.update(addr, val)[addr] == val,
        forall|i: int| 0 <= i < m.len() && i != addr ==> m.update(addr, val)[i] == m[i],
{
}

} // verus!
