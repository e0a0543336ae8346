//! Bump heap carved out of physical frames that the frame allocator handed out,
//! addressed through the physical-memory window.

use vstd::prelude::*;
use crate::frames::{FrameAllocator, FRAME_SIZE};
use vstd::arithmetic::power2::pow2;

verus! {

/// Smallest alignment the heap hands out.
pub const MIN_ALIGN: u64 = 8;

/// Bump heap: allocations are carved upward from the base; nothing is freed.
pub struct KernelHeap {
    base_virt: u64,
    base_phys: u64,
    capacity: u64,
    used: u64,
}

/// Mathematical state of the heap.
pub struct KernelHeapView {
    pub base_virt: u64,
    pub base_phys: u64,
    pub capacity: u64,
    /// Bytes below the watermark (handed out or lost to alignment).
    pub used: u64,
}

impl View for KernelHeap {
    type V = KernelHeapView;

    closed spec fn view(&self) -> KernelHeapView {
        KernelHeapView {
            base_virt: self.base_virt,
            base_phys: self.base_phys,
            capacity: self.capacity,
            used: self.used,
        }
    }
}

/// Alignment actually used for a request: at least `MIN_ALIGN`.
pub open spec fn effective_align(align: usize) -> u64 {
    if align as u64 > MIN_ALIGN { align as u64 } else { MIN_ALIGN }
}

/// `cur` rounded up with the mask of `al`: `(cur + al - 1) & !(al - 1)`.
pub open spec fn align_up(cur: u64, al: u64) -> u64 {
    ((cur + al - 1) as u64) & !((al - 1) as u64)
}

/// The rounded-up offset is never below the offset it was rounded from, and is
/// less than one alignment above it.
pub proof fn lemma_align_up_bounds(cur: u64, al: u64)
    requires
        al >= 1,
        cur + al <= u64::MAX,
    ensures
        cur <= align_up(cur, al),
        align_up(cur, al) <= cur + al - 1,
{
    let x = (cur + al - 1) as u64;
    let m = (al - 1) as u64;
    assert(x & !m <= x) by (bit_vector);
    assert(x - (x & m) == x & !m) by (bit_vector);
    assert(x & m <= m) by (bit_vector);
}

/// Outcome of a request for `size` bytes aligned to `align` on heap `h`: the
/// new heap state and the address handed out, if any.
pub open spec fn heap_allocate(h: KernelHeapView, size: usize, align: usize) -> (KernelHeapView, Option<u64>) {
    let a = align_up(h.used, effective_align(align));
    if size == 0 || h.capacity == 0 || a + size > h.capacity {
        (h, None)
    } else {
        (KernelHeapView { used: (a + size) as u64, ..h }, Some((h.base_virt + a) as u64))
    }
}

/// For a power-of-two alignment `2^k` the rounded-up offset is a multiple of it.
pub proof fn lemma_align_up_aligned(cur: u64, k: nat)
    requires
        k < 64,
        cur + pow2(k) <= u64::MAX,
    ensures
        align_up(cur, pow2(k) as u64) % (pow2(k) as u64) == 0,
{
    vstd::bits::lemma_u64_pow2_no_overflow(k);
    vstd::arithmetic::power2::lemma_pow2_pos(k);
    let al = pow2(k) as u64;
    let x = (cur + al - 1) as u64;
    let m = (al - 1) as u64;
    let y = x & !m;
    assert(y & m == 0) by (bit_vector)
        requires
            y == x & !m,
    ;
    vstd::bits::lemma_u64_low_bits_mask_is_mod(y, k);
    assert(vstd::bits::low_bits_mask(k) as u64 == m);
}

/// An address the heap hands out for a power-of-two alignment (at least the
/// minimum of 8) is aligned to it, relative to the heap base.
pub proof fn lemma_allocation_aligned(h: KernelHeapView, size: usize, align: usize, k: nat)
    requires
        k < 64,
        effective_align(align) == pow2(k),
        h.used + effective_align(align) <= u64::MAX,
        h.base_virt + h.capacity <= u64::MAX,
        heap_allocate(h, size, align).1 is Some,
    ensures
        (heap_allocate(h, size, align).1.unwrap() - h.base_virt) % (effective_align(align) as int) == 0,
{
    lemma_align_up_aligned(h.used, k);
}

/// No request that fits is refused: a non-empty request on a non-empty heap
/// whose block fits below the capacity even after the largest padding that
/// its alignment `max(align, 8)` can need is served, at or above the
/// watermark and less than one alignment above it.
pub proof fn lemma_allocation_fits(h: KernelHeapView, size: usize, align: usize)
    requires
        size > 0,
        h.capacity > 0,
        h.used + (if align > 8 { align as int } else { 8 }) <= u64::MAX,
        h.used + (if align > 8 { align as int } else { 8 }) - 1 + size <= h.capacity,
        h.base_virt + h.capacity <= u64::MAX,
    ensures
        heap_allocate(h, size, align).1 is Some,
        h.base_virt + h.used <= heap_allocate(h, size, align).1.unwrap(),
        heap_allocate(h, size, align).1.unwrap() < h.base_virt + h.used + (if align > 8 { align as int } else { 8 }),
{
    assert(effective_align(align) == (if align > 8 { align as int } else { 8 })) by {
        assert((align as u64) as int == align as int);
    }
    lemma_align_up_bounds(h.used, effective_align(align));
}

/// An address the heap hands out for a power-of-two alignment is aligned to
/// it, relative to the heap base, and always to at least 8 bytes.
pub proof fn lemma_allocation_honours_alignment(h: KernelHeapView, size: usize, align: usize, k: nat)
    requires
        k < 64,
        align == pow2(k),
        h.used + (if align > 8 { align as int } else { 8 }) <= u64::MAX,
        h.base_virt + h.capacity <= u64::MAX,
        heap_allocate(h, size, align).1 is Some,
    ensures
        (heap_allocate(h, size, align).1.unwrap() - h.base_virt) % (align as int) == 0,
        (heap_allocate(h, size, align).1.unwrap() - h.base_virt) % 8 == 0,
{
    vstd::arithmetic::power2::lemma_pow2_pos(k);
    vstd::arithmetic::power2::lemma2_to64();
    assert((align as u64) as int == align as int);
    let off = heap_allocate(h, size, align).1.unwrap() - h.base_virt;
    if k >= 3 {
        vstd::arithmetic::power2::lemma_pow2_adds(3, (k - 3) as nat);
        assert(pow2(3) == 8);
        assert(align > 8 || align == 8);
        assert(effective_align(align) == align);
        lemma_allocation_aligned(h, size, align, k);
        let q = off / (align as int);
        assert(off == q * (align as int)) by {
            vstd::arithmetic::div_mod::lemma_fundamental_div_mod(off, align as int);
        }
        assert(off == (q * pow2((k - 3) as nat)) * 8) by (nonlinear_arith)
            requires
                off == q * (align as int),
                align as int == pow2(3) * pow2((k - 3) as nat),
                pow2(3) == 8,
        ;
        vstd::arithmetic::div_mod::lemma_mod_multiples_basic(q * pow2((k - 3) as nat), 8);
    } else {
        assert(align <= 4);
        assert(effective_align(align) == 8);
        assert(pow2(3) == 8);
        lemma_allocation_aligned(h, size, align, 3);
        assert(off % 8 == 0);
        let q = off / 8;
        assert(off == q * 8) by {
            vstd::arithmetic::div_mod::lemma_fundamental_div_mod(off, 8);
        }
        assert(align == 1 || align == 2 || align == 4);
        assert(off == (q * (8int / (align as int))) * (align as int)) by (nonlinear_arith)
            requires
                off == q * 8,
                align == 1 || align == 2 || align == 4,
        ;
        vstd::arithmetic::div_mod::lemma_mod_multiples_basic(q * (8int / (align as int)), align as int);
    }
}

/// Successive allocations never overlap: the second block starts at or after
/// the end of the first.
pub proof fn lemma_successive_allocations_disjoint(
    h0: KernelHeapView,
    size1: usize,
    align1: usize,
    size2: usize,
    align2: usize,
)
    requires
        h0.used <= h0.capacity,
        h0.base_virt + h0.capacity <= u64::MAX,
        h0.used + effective_align(align1) <= u64::MAX,
        heap_allocate(h0, size1, align1).0.used + effective_align(align2) <= u64::MAX,
        heap_allocate(h0, size1, align1).1 is Some,
        heap_allocate(heap_allocate(h0, size1, align1).0, size2, align2).1 is Some,
    ensures
        heap_allocate(h0, size1, align1).1.unwrap() + size1 <= heap_allocate(
            heap_allocate(h0, size1, align1).0,
            size2,
            align2,
        ).1.unwrap(),
{
    let h1 = heap_allocate(h0, size1, align1).0;
    lemma_align_up_bounds(h0.used, effective_align(align1));
    lemma_align_up_bounds(h1.used, effective_align(align2));
}

impl KernelHeap {
    /// Well-formedness: the watermark never passes the capacity.
    pub closed spec fn wf(&self) -> bool {
        self.used <= self.capacity
    }

    /// The watermark of a well-formed heap never passes its capacity.
    pub proof fn lemma_view_wf(&self)
        requires
            self.wf(),
        ensures
            self@.used <= self@.capacity,
    {
    }

    /// A heap with no memory: every request fails.
    pub fn empty() -> (h: Self)
        ensures
            h.wf(),
            h@ == (KernelHeapView { base_virt: 0, base_phys: 0, capacity: 0, used: 0 }),
    {
        Self { base_virt: 0, base_phys: 0, capacity: 0, used: 0 }
    }

    /// Lays out a heap over the `n_frames` frames starting at `start_frame`,
    /// addressed through the window of `frames`. (Zeroing the memory is left to
    /// the caller, who owns the mapping.)
    pub fn from_frames(frames: &FrameAllocator, start_frame: u64, n_frames: u64) -> (h: Self)
        requires
            start_frame * FRAME_SIZE + frames@.phys_offset <= u64::MAX,
            n_frames * FRAME_SIZE <= u64::MAX,
        ensures
            h.wf(),
            h@ == (KernelHeapView {
                base_virt: (start_frame * FRAME_SIZE + frames@.phys_offset) as u64,
                base_phys: (start_frame * FRAME_SIZE) as u64,
                capacity: (n_frames * FRAME_SIZE) as u64,
                used: 0,
            }),
    {
        let base_phys = start_frame * FRAME_SIZE;
        let base_virt = frames.frame_to_virt(start_frame);
        let capacity = n_frames * FRAME_SIZE;
        Self { base_virt, base_phys, capacity, used: 0 }
    }

    /// Carves `size` bytes aligned to `max(align, 8)` (rounded with the mask of
    /// that alignment) above the watermark; returns their virtual address, or
    /// `None` for an empty request, an empty heap, or when they do not fit.
    pub fn allocate(&mut self, size: usize, align: usize) -> (r: Option<u64>)
        requires
            old(self).wf(),
            old(self)@.base_virt + old(self)@.capacity <= u64::MAX,
            size > 0 && old(self)@.capacity > 0 ==> old(self)@.used + effective_align(align) <= u64::MAX,
        ensures
            final(self).wf(),
            final(self)@.base_virt == old(self)@.base_virt,
            final(self)@.base_phys == old(self)@.base_phys,
            final(self)@.capacity == old(self)@.capacity,
            r == heap_allocate(old(self)@, size, align).1,
            final(self)@ == heap_allocate(old(self)@, size, align).0,
            r matches Some(p) ==> old(self)@.base_virt + old(self)@.used <= p
                && p + size <= old(self)@.base_virt + old(self)@.capacity,
    {
        if size == 0 || self.capacity == 0 {
            return None;
        }
        let al: u64 = if align as u64 > MIN_ALIGN { align as u64 } else { MIN_ALIGN };
        let sz: u64 = size as u64;
        let cur = self.used;
        proof {
            lemma_align_up_bounds(cur, al);
        }
        let aligned = (cur + al - 1) & !(al - 1);
        let next = match aligned.checked_add(sz) {
            Some(n) => n,
            None => return None,
        };
        if next > self.capacity {
            return None;
        }
        self.used = next;
        Some(self.base_virt + aligned)
    }

    /// Bytes below the watermark.
    pub fn used_bytes(&self) -> (r: u64)
        ensures
            r == self@.used,
    {
        self.used
    }

    /// Size of the heap in bytes.
    pub fn capacity_bytes(&self) -> (r: u64)
        ensures
            r == self@.capacity,
    {
        self.capacity
    }

    /// Physical address of the heap's first byte.
    pub fn base_phys(&self) -> (r: u64)
        ensures
            r == self@.base_phys,
    {
        self.base_phys
    }
}

} // verus!
