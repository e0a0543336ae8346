//! The boot memory self-test: build the frame allocator from the memory map,
//! take single frames, carve a heap out of a block of frames, and report.
//!
//! Writing the test pattern into the frames and the heap needs the mapped
//! physical memory, so it happens between `begin_mem_selftest` and
//! `finish_mem_selftest`, outside the verified core.

use vstd::prelude::*;
use crate::frames::{
    FrameAllocator, FrameAllocatorView, MemRegion, MemMapReport, FRAME_SIZE, block_search,
    block_search_overflows, frames_seen, lemma_block_search_in_run, map_runs, same_map,
    usable_frames_of, usable_runs,
};
use crate::heap::{KernelHeap, KernelHeapView};

verus! {

/// Frames the self-test takes one at a time.
pub const SELFTEST_FRAMES: u64 = 16;
/// Frames the self-test takes as one block for the heap.
pub const HEAP_FRAMES: u64 = 32;

/// Allocator state and frames after the self-test has taken frames one at a time.
pub struct MemSelftest {
    pub allocator: FrameAllocator,
    /// The frames taken one at a time, in order.
    pub touched: Vec<u64>,
    /// The first frame taken, or 0 when none was.
    pub first: u64,
    /// How many single frames were taken.
    pub got: u64,
    /// First frame of the heap block, if one was found.
    pub heap_start: Option<u64>,
    /// The heap laid out over that block when physical memory is mapped.
    pub heap: Option<KernelHeap>,
    pub phys_offset: u64,
}

/// The allocator state that `FrameAllocator::from_memory_map` builds.
pub open spec fn initial_allocator(map: Seq<MemRegion>, phys_offset: u64) -> FrameAllocatorView {
    let runs = map_runs(map);
    FrameAllocatorView {
        runs,
        cur_run: 0,
        next_frame: if runs.len() > 0 { runs[0].0 } else { 0 },
        allocated: 0,
        usable_frames: usable_frames_of(map),
        regions: map.len() as u32,
        usable_regions: usable_runs(map).len() as u32,
        total_frames_seen: frames_seen(map),
        phys_offset,
    }
}

/// The allocator state after a search for `n` frames: position moved, and
/// `n` frames counted as allocated if a block was found.
pub open spec fn after_allocation(v: FrameAllocatorView, n: u64) -> FrameAllocatorView {
    let s = block_search(v.runs, v.cur_run, v.next_frame, n);
    FrameAllocatorView {
        cur_run: s.0,
        next_frame: s.1,
        allocated: if s.2 is Some { (v.allocated + n) as u64 } else { v.allocated },
        ..v
    }
}

/// Allocator state and frames handed out after `k` single-frame allocations.
pub open spec fn single_allocations(v: FrameAllocatorView, k: nat) -> (FrameAllocatorView, Seq<u64>)
    decreases k,
{
    if k == 0 {
        (v, Seq::empty())
    } else {
        let prev = single_allocations(v, (k - 1) as nat);
        let w = prev.0;
        let s = block_search(w.runs, w.cur_run, w.next_frame, 1);
        (after_allocation(w, 1), match s.2 {
            Some(f) => prev.1.push(f),
            None => prev.1,
        })
    }
}

/// Every usable region of the map ends at a frame whose address, shifted by
/// the window offset, still fits in 64 bits.
pub open spec fn usable_frames_addressable(map: Seq<MemRegion>, phys_offset: u64) -> bool {
    forall|j: int|
        0 <= j < map.len() && #[trigger] map[j].usable ==> map[j].end_frame_number * FRAME_SIZE
            + phys_offset <= u64::MAX
}

proof fn lemma_usable_runs_bounded(map: Seq<MemRegion>, phys_offset: u64)
    requires
        usable_frames_addressable(map, phys_offset),
    ensures
        forall|i: int| 0 <= i < usable_runs(map).len() ==> #[trigger] usable_runs(map)[i].1 * FRAME_SIZE
            + phys_offset <= u64::MAX,
    decreases map.len(),
{
    if map.len() > 0 {
        let pre = map.drop_last();
        assert forall|j: int| 0 <= j < pre.len() && #[trigger] pre[j].usable implies pre[j].end_frame_number
            * FRAME_SIZE + phys_offset <= u64::MAX by {
            assert(pre[j] == map[j]);
        }
        lemma_usable_runs_bounded(pre, phys_offset);
        assert(map.last() == map[map.len() - 1]);
        let r = usable_runs(pre);
        let u = usable_runs(map);
        assert forall|i: int| 0 <= i < u.len() implies #[trigger] u[i].1 * FRAME_SIZE + phys_offset
            <= u64::MAX by {
            if i < r.len() {
                assert(u[i] == r[i]);
            } else {
                assert(u[i] == (map.last().start_frame_number, map.last().end_frame_number));
            }
        }
    }
}

proof fn lemma_no_block_overflow(runs: Seq<(u64, u64)>, cur: int, next: u64, n: u64)
    requires
        forall|i: int| 0 <= i < runs.len() ==> #[trigger] runs[i].0 < runs[i].1,
        forall|i: int| 0 <= i < runs.len() ==> #[trigger] runs[i].1 + n <= u64::MAX,
        0 <= cur < runs.len() ==> next <= runs[cur].1,
    ensures
        !block_search_overflows(runs, cur, next, n),
    decreases runs.len() - cur,
{
    if 0 <= cur < runs.len() && cur + 1 < runs.len() {
        lemma_no_block_overflow(runs, cur + 1, runs[cur + 1].0, n);
    }
}

/// Builds the allocator from `map`, takes 16 single frames and one block of 32
/// frames, and lays the heap out over the block when `phys_offset` is non-zero.
pub fn begin_mem_selftest(map: &[MemRegion], phys_offset: u64) -> (t: MemSelftest)
    requires
        map@.len() <= u32::MAX,
        usable_frames_addressable(map@, phys_offset),
    ensures
        ({
            let v0 = initial_allocator(map@, phys_offset);
            let singles = single_allocations(v0, SELFTEST_FRAMES as nat);
            let w = singles.0;
            let hs = block_search(w.runs, w.cur_run, w.next_frame, HEAP_FRAMES);
            let v = after_allocation(w, HEAP_FRAMES);
            &&& t.allocator.wf()
            &&& same_map(t.allocator@, v)
            &&& t.allocator@.cur_run == v.cur_run
            &&& t.allocator@.next_frame == v.next_frame
            &&& t.allocator@.allocated == v.allocated
            &&& t.touched@ == singles.1
            &&& t.touched@ == v0.pending().take(t.touched@.len() as int)
            &&& t.got == t.touched@.len()
            &&& t.first == (if t.got > 0 { t.touched@[0] } else { 0 })
            &&& t.heap_start == hs.2
            &&& t.phys_offset == phys_offset
            &&& t.heap.is_some() == (phys_offset != 0 && hs.2 is Some)
            &&& t.heap matches Some(h) ==> h.wf() && h@ == (KernelHeapView {
                base_virt: (hs.2.unwrap() * FRAME_SIZE + phys_offset) as u64,
                base_phys: (hs.2.unwrap() * FRAME_SIZE) as u64,
                capacity: (HEAP_FRAMES * FRAME_SIZE) as u64,
                used: 0,
            })
            &&& t.heap_start matches Some(sf) ==> sf * FRAME_SIZE + phys_offset <= u64::MAX
        }),
{
    let mut alloc = FrameAllocator::from_memory_map(map, phys_offset);
    let ghost v0 = alloc@;
    proof {
        lemma_usable_runs_bounded(map@, phys_offset);
        assert(v0.runs == initial_allocator(map@, phys_offset).runs);
    }
    let mut touched: Vec<u64> = Vec::new();
    let mut first: u64 = 0;
    let mut got: u64 = 0;
    let mut i: u64 = 0;
    while i < SELFTEST_FRAMES
        invariant
            i <= SELFTEST_FRAMES,
            alloc.wf(),
            same_map(alloc@, v0),
            got == touched@.len(),
            got <= i,
            alloc@.allocated == got,
            ({
                let singles = single_allocations(v0, i as nat);
                &&& alloc@.cur_run == singles.0.cur_run
                &&& alloc@.next_frame == singles.0.next_frame
                &&& touched@ == singles.1
            }),
            same_map(single_allocations(v0, i as nat).0, v0),
            single_allocations(v0, i as nat).0.allocated == got,
            touched@ == v0.pending().take(got as int),
            alloc@.pending() == v0.pending().skip(got as int),
            got <= v0.pending().len(),
            first == (if got > 0 { touched@[0] } else { 0 }),
        decreases SELFTEST_FRAMES - i,
    {
        let ghost before = alloc@;
        match alloc.allocate_frame() {
            Some(f) => {
                if got == 0 {
                    first = f;
                }
                touched.push(f);
                got = got + 1;
                proof {
                    assert(touched@ =~= v0.pending().take(got as int));
                    assert(alloc@.pending() =~= v0.pending().skip(got as int));
                }
            },
            None => {},
        }
        i = i + 1;
    }
    let ghost w = alloc@;
    proof {
        alloc.lemma_view_wf();
        assert forall|k: int| 0 <= k < w.runs.len() implies #[trigger] w.runs[k].1 + HEAP_FRAMES <= u64::MAX by {
            assert(w.runs[k].1 * FRAME_SIZE + phys_offset <= u64::MAX);
        }
        lemma_no_block_overflow(w.runs, w.cur_run, w.next_frame, HEAP_FRAMES);
    }
    let heap_start = alloc.allocate_frames(HEAP_FRAMES);
    let mut heap: Option<KernelHeap> = None;
    if let Some(sf) = heap_start {
        proof {
            lemma_block_search_in_run(w.runs, w.cur_run, w.next_frame, HEAP_FRAMES);
            let c = block_search(w.runs, w.cur_run, w.next_frame, HEAP_FRAMES).0;
            assert(w.runs[c].1 * FRAME_SIZE + phys_offset <= u64::MAX);
            assert(sf * FRAME_SIZE <= w.runs[c].1 * FRAME_SIZE) by (nonlinear_arith)
                requires
                    sf <= w.runs[c].1,
            ;
        }
        if phys_offset != 0 {
            heap = Some(KernelHeap::from_frames(&alloc, sf, HEAP_FRAMES));
        }
    }
    MemSelftest { allocator: alloc, touched, first, got, heap_start, heap, phys_offset }
}

/// Completes the self-test once the frames have been written and read back
/// (`touch_ok`) and, if a heap was laid out, its write/read-back check ran
/// (`heap_readback_ok`). Returns `(ok, report, first frame)`.
pub fn finish_mem_selftest(t: &MemSelftest, touch_ok: bool, heap_readback_ok: bool) -> (r: (
    bool,
    MemMapReport,
    u64,
))
    requires
        t.heap_start matches Some(sf) ==> sf * FRAME_SIZE <= u64::MAX,
    ensures
        ({
            let a = t.allocator@;
            let heap_ok = t.heap.is_some() && heap_readback_ok;
            let rep = r.1;
            &&& rep.regions == a.regions
            &&& rep.usable_regions == a.usable_regions
            &&& rep.usable_frames == a.usable_frames
            &&& rep.total_frames_seen == a.total_frames_seen
            &&& rep.allocated == a.allocated
            &&& rep.free_remaining == (if a.usable_frames >= a.allocated {
                (a.usable_frames - a.allocated) as u64
            } else {
                0
            })
            &&& rep.phys_offset == a.phys_offset
            &&& rep.heap_base_phys == match t.heap {
                Some(h) => h@.base_phys,
                None => match t.heap_start {
                    Some(sf) => (sf * FRAME_SIZE) as u64,
                    None => 0,
                },
            }
            &&& rep.heap_bytes == match t.heap {
                Some(h) => h@.capacity,
                None => if t.heap_start is Some { (HEAP_FRAMES * FRAME_SIZE) as u64 } else { 0 },
            }
            &&& rep.heap_used == match t.heap {
                Some(h) => h@.used,
                None => 0,
            }
            &&& rep.heap_write_ok == heap_ok
            &&& r.2 == t.first
            &&& r.0 == (a.usable_frames > 100 && a.usable_regions > 0 && t.got == SELFTEST_FRAMES
                && t.heap_start is Some && a.allocated >= 48 && touch_ok && (t.phys_offset == 0
                || heap_ok))
        }),
{
    let mut heap_ok = false;
    let mut heap_base: u64 = 0;
    let mut heap_bytes: u64 = 0;
    let mut heap_used: u64 = 0;
    if let Some(sf) = t.heap_start {
        heap_base = sf * FRAME_SIZE;
        heap_bytes = HEAP_FRAMES * FRAME_SIZE;
    }
    if let Some(h) = &t.heap {
        heap_ok = heap_readback_ok;
        heap_used = h.used_bytes();
        heap_base = h.base_phys();
        heap_bytes = h.capacity_bytes();
    }
    let mut rep = t.allocator.report_base();
    rep.heap_base_phys = heap_base;
    rep.heap_bytes = heap_bytes;
    rep.heap_used = heap_used;
    rep.heap_write_ok = heap_ok;
    let ok = rep.usable_frames > 100 && rep.usable_regions > 0 && t.got == SELFTEST_FRAMES
        && t.heap_start.is_some() && rep.allocated >= 48 && touch_ok && (t.phys_offset == 0 || heap_ok);
    (ok, rep, t.first)
}

} // verus!
