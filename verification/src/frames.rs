//! Physical frame allocator over the usable regions of the boot memory map,
//! and a bump heap carved out of allocated frames.

use vstd::prelude::*;

verus! {

/// Size of a physical frame in bytes.
pub const FRAME_SIZE: u64 = 4096;
/// Most usable regions the allocator keeps as allocation runs.
pub const MAX_RUNS: usize = 64;

/// One region of the boot memory map, in frame numbers (`end` exclusive).
#[derive(Clone, Copy, Debug)]
pub struct MemRegion {
    pub start_frame_number: u64,
    pub end_frame_number: u64,
    /// The region is marked usable (free RAM the kernel may take).
    pub usable: bool,
}

/// Snapshot of the memory map and heap statistics at boot.
#[derive(Clone, Copy, Debug)]
pub struct MemMapReport {
    pub regions: u32,
    pub usable_regions: u32,
    pub usable_frames: u64,
    pub total_frames_seen: u64,
    pub allocated: u64,
    pub free_remaining: u64,
    pub phys_offset: u64,
    pub heap_base_phys: u64,
    pub heap_bytes: u64,
    pub heap_used: u64,
    pub heap_write_ok: bool,
}

/// Bump allocator over the usable regions of the memory map, taken in map
/// order (at most `MAX_RUNS` of them).
pub struct FrameAllocator {
    runs: [(u64, u64); 64],
    run_count: usize,
    cur_run: usize,
    next_frame: u64,
    allocated: u64,
    usable_frames: u64,
    regions: u32,
    usable_regions: u32,
    total_frames_seen: u64,
    phys_offset: u64,
}

/// Mathematical state of a frame allocator.
pub struct FrameAllocatorView {
    /// The allocation runs `[start, end)`, in map order.
    pub runs: Seq<(u64, u64)>,
    /// Index of the run allocation currently draws from.
    pub cur_run: int,
    /// Lowest frame of the current run that may still be handed out.
    pub next_frame: u64,
    /// Frames handed out so far.
    pub allocated: u64,
    pub usable_frames: u64,
    pub regions: u32,
    pub usable_regions: u32,
    pub total_frames_seen: u64,
    pub phys_offset: u64,
}

/// Number of frames in `[a, b)`.
pub open spec fn span(a: u64, b: u64) -> nat {
    if b > a { (b - a) as nat } else { 0 }
}

/// `a + b`, saturated at `u64::MAX`.
pub open spec fn sat_add(a: u64, b: nat) -> u64 {
    if a + b > u64::MAX { u64::MAX } else { (a + b) as u64 }
}

/// The frames of the run `[r.0, r.1)`, in increasing order.
pub open spec fn run_frames(r: (u64, u64)) -> Seq<u64> {
    Seq::new(span(r.0, r.1), |i: int| (r.0 + i) as u64)
}

/// The frames of all runs, run after run.
pub open spec fn frames_of(runs: Seq<(u64, u64)>) -> Seq<u64>
    decreases runs.len(),
{
    if runs.len() == 0 {
        Seq::empty()
    } else {
        run_frames(runs[0]) + frames_of(runs.subrange(1, runs.len() as int))
    }
}

/// The usable, non-empty regions of a memory map, in map order.
pub open spec fn usable_runs(map: Seq<MemRegion>) -> Seq<(u64, u64)>
    decreases map.len(),
{
    if map.len() == 0 {
        Seq::empty()
    } else {
        let r = usable_runs(map.drop_last());
        let m = map.last();
        if m.usable && m.end_frame_number > m.start_frame_number {
            r.push((m.start_frame_number, m.end_frame_number))
        } else {
            r
        }
    }
}

proof fn lemma_usable_runs_len(map: Seq<MemRegion>)
    ensures
        usable_runs(map).len() <= map.len(),
    decreases map.len(),
{
    if map.len() > 0 {
        lemma_usable_runs_len(map.drop_last());
    }
}

/// The runs are exactly the usable, non-empty regions of the map: every run is
/// the frame range of such a region, and every such region is a run; unusable
/// and empty regions contribute none.
pub proof fn lemma_usable_runs_from_map(map: Seq<MemRegion>)
    ensures
        forall|i: int| 0 <= i < usable_runs(map).len() ==> exists|j: int| 0 <= j < map.len()
            && map[j].usable && map[j].start_frame_number < map[j].end_frame_number
            && #[trigger] usable_runs(map)[i] == (map[j].start_frame_number, map[j].end_frame_number),
        forall|j: int| 0 <= j < map.len() && #[trigger] map[j].usable
            && map[j].start_frame_number < map[j].end_frame_number ==> usable_runs(map).contains(
            (map[j].start_frame_number, map[j].end_frame_number),
        ),
    decreases map.len(),
{
    if map.len() > 0 {
        let pre = map.drop_last();
        lemma_usable_runs_from_map(pre);
        let r = usable_runs(pre);
        let u = usable_runs(map);
        let m = map.last();
        assert(m == map[map.len() - 1]);
        assert forall|i: int| 0 <= i < u.len() implies exists|j: int| 0 <= j < map.len()
            && map[j].usable && map[j].start_frame_number < map[j].end_frame_number
            && #[trigger] u[i] == (map[j].start_frame_number, map[j].end_frame_number) by {
            if i < r.len() {
                assert(u[i] == r[i]);
                let j = choose|j: int| 0 <= j < pre.len() && pre[j].usable
                    && pre[j].start_frame_number < pre[j].end_frame_number
                    && #[trigger] r[i] == (pre[j].start_frame_number, pre[j].end_frame_number);
                assert(map[j] == pre[j]);
            } else {
                assert(u[i] == (m.start_frame_number, m.end_frame_number));
            }
        }
        assert forall|j: int| 0 <= j < map.len() && #[trigger] map[j].usable
            && map[j].start_frame_number < map[j].end_frame_number implies u.contains(
            (map[j].start_frame_number, map[j].end_frame_number),
        ) by {
            let f = (map[j].start_frame_number, map[j].end_frame_number);
            if j < pre.len() {
                assert(pre[j] == map[j]);
                assert(pre[j].usable);
                assert(r.contains(f));
                let k = choose|k: int| 0 <= k < r.len() && r[k] == f;
                assert(u[k] == r[k]);
            } else {
                assert(u[u.len() - 1] == f);
            }
        }
    }
}

/// Frames in all regions of the map, summed with saturation.
pub open spec fn frames_seen(map: Seq<MemRegion>) -> u64
    decreases map.len(),
{
    if map.len() == 0 {
        0
    } else {
        let m = map.last();
        sat_add(frames_seen(map.drop_last()), span(m.start_frame_number, m.end_frame_number))
    }
}

/// Frames in the usable regions of the map, summed with saturation.
pub open spec fn usable_frames_of(map: Seq<MemRegion>) -> u64
    decreases map.len(),
{
    if map.len() == 0 {
        0
    } else {
        let m = map.last();
        let t = usable_frames_of(map.drop_last());
        if m.usable { sat_add(t, span(m.start_frame_number, m.end_frame_number)) } else { t }
    }
}

/// The first `MAX_RUNS` usable regions: the runs an allocator built from `map` draws from.
pub open spec fn map_runs(map: Seq<MemRegion>) -> Seq<(u64, u64)> {
    let u = usable_runs(map);
    if u.len() <= MAX_RUNS { u } else { u.subrange(0, MAX_RUNS as int) }
}

impl FrameAllocatorView {
    /// Every run is non-empty, the current run index is in range and the next
    /// frame does not lie past the end of the current run.
    pub open spec fn wf(self) -> bool {
        &&& self.runs.len() <= MAX_RUNS
        &&& forall|i: int| 0 <= i < self.runs.len() ==> #[trigger] self.runs[i].0 < self.runs[i].1
        &&& 0 <= self.cur_run <= self.runs.len()
        &&& self.cur_run < self.runs.len() ==> self.next_frame <= self.runs[self.cur_run].1
    }

    /// Frame accounting: the frames handed out plus those still pending fit in
    /// the usable frames of the map (unless that count saturated).
    pub open spec fn accounted(self) -> bool {
        self.usable_frames == u64::MAX || self.allocated + self.pending().len() <= self.usable_frames
    }

    /// The frames still to be handed out, in the order the allocator hands them out.
    pub open spec fn pending(self) -> Seq<u64> {
        if 0 <= self.cur_run < self.runs.len() {
            let r = self.runs[self.cur_run];
            run_frames((if self.next_frame > r.0 { self.next_frame } else { r.0 }, r.1))
                + frames_of(self.runs.subrange(self.cur_run + 1, self.runs.len() as int))
        } else {
            Seq::empty()
        }
    }
}

/// `a` and `b` have the same runs, map statistics and physical offset.
pub open spec fn same_map(a: FrameAllocatorView, b: FrameAllocatorView) -> bool {
    &&& a.runs == b.runs
    &&& a.usable_frames == b.usable_frames
    &&& a.regions == b.regions
    &&& a.usable_regions == b.usable_regions
    &&& a.total_frames_seen == b.total_frames_seen
    &&& a.phys_offset == b.phys_offset
}

proof fn lemma_frames_of_unfold(runs: Seq<(u64, u64)>, c: int)
    requires
        0 <= c < runs.len(),
    ensures
        frames_of(runs.subrange(c, runs.len() as int)) == run_frames(runs[c]) + frames_of(
            runs.subrange(c + 1, runs.len() as int),
        ),
{
    let sub = runs.subrange(c, runs.len() as int);
    assert(sub[0] == runs[c]);
    assert(sub.subrange(1, sub.len() as int) =~= runs.subrange(c + 1, runs.len() as int));
}

/// Search for `n` consecutive frames, starting in run `cur` at frame `next`:
/// each run is tried from `max(next, start)`; a run too short for the block is
/// abandoned and the search moves to the start of the following run.
/// Gives the run index and next frame the search ends at, and the block start if found.
pub open spec fn block_search(runs: Seq<(u64, u64)>, cur: int, next: u64, n: u64) -> (int, u64, Option<u64>)
    decreases runs.len() - cur,
{
    if cur < 0 || cur >= runs.len() {
        (cur, next, None)
    } else {
        let r = runs[cur];
        let x = if next < r.0 { r.0 } else { next };
        if x + n <= r.1 {
            (cur, (x + n) as u64, Some(x))
        } else if cur + 1 < runs.len() {
            block_search(runs, cur + 1, runs[cur + 1].0, n)
        } else {
            (cur + 1, x, None)
        }
    }
}

/// Whether the block search computes a block end past `u64::MAX` before it stops.
pub open spec fn block_search_overflows(runs: Seq<(u64, u64)>, cur: int, next: u64, n: u64) -> bool
    decreases runs.len() - cur,
{
    if cur < 0 || cur >= runs.len() {
        false
    } else {
        let r = runs[cur];
        let x = if next < r.0 { r.0 } else { next };
        ||| x + n > u64::MAX
        ||| (x + n > r.1 && cur + 1 < runs.len() && block_search_overflows(runs, cur + 1, runs[cur + 1].0, n))
    }
}


/// Runs appear in increasing address order and do not overlap.
pub open spec fn runs_sorted_disjoint(runs: Seq<(u64, u64)>) -> bool {
    forall|i: int, j: int| 0 <= i < j < runs.len() ==> #[trigger] runs[i].1 <= #[trigger] runs[j].0
}

/// Every element is smaller than every later one.
pub open spec fn strictly_increasing(s: Seq<u64>) -> bool {
    forall|i: int, j: int| 0 <= i < j < s.len() ==> #[trigger] s[i] < #[trigger] s[j]
}

/// Frame `f` lies in one of the runs.
pub open spec fn in_some_run(runs: Seq<(u64, u64)>, f: u64) -> bool {
    exists|i: int| 0 <= i < runs.len() && #[trigger] runs[i].0 <= f && f < runs[i].1
}

proof fn lemma_frames_of_bounds(runs: Seq<(u64, u64)>)
    requires
        forall|i: int| 0 <= i < runs.len() ==> #[trigger] runs[i].0 < runs[i].1,
        runs_sorted_disjoint(runs),
    ensures
        strictly_increasing(frames_of(runs)),
        forall|k: int| 0 <= k < frames_of(runs).len() ==> in_some_run(runs, #[trigger] frames_of(runs)[k]),
        runs.len() > 0 ==> forall|k: int| 0 <= k < frames_of(runs).len() ==> runs[0].0 <= #[trigger] frames_of(runs)[k],
    decreases runs.len(),
{
    if runs.len() > 0 {
        let rest = runs.subrange(1, runs.len() as int);
        assert forall|i: int, j: int| 0 <= i < j < rest.len() implies #[trigger] rest[i].1 <= #[trigger] rest[j].0 by {
            assert(runs[i + 1].1 <= runs[j + 1].0);
        }
        lemma_frames_of_bounds(rest);
        let a = run_frames(runs[0]);
        let b = frames_of(rest);
        let all = frames_of(runs);
        assert(all == a + b);
        assert forall|k: int| 0 <= k < b.len() implies runs[0].1 <= #[trigger] b[k] by {
            assert(in_some_run(rest, b[k]));
            let i = choose|i: int| 0 <= i < rest.len() && #[trigger] rest[i].0 <= b[k] && b[k] < rest[i].1;
            assert(runs[0].1 <= runs[i + 1].0);
        }
        assert forall|k: int| 0 <= k < all.len() implies in_some_run(runs, #[trigger] all[k]) by {
            if k < a.len() {
                assert(runs[0].0 <= all[k] && all[k] < runs[0].1);
            } else {
                assert(all[k] == b[k - a.len()]);
                assert(in_some_run(rest, b[k - a.len()]));
                let i = choose|i: int| 0 <= i < rest.len() && #[trigger] rest[i].0 <= b[k - a.len()] && b[k - a.len()] < rest[i].1;
                assert(runs[i + 1] == rest[i]);
            }
        }
        assert forall|i: int, j: int| 0 <= i < j < all.len() implies #[trigger] all[i] < #[trigger] all[j] by {
            if j < a.len() {
            } else if i < a.len() {
                assert(all[j] == b[j - a.len()]);
            } else {
                assert(all[i] == b[i - a.len()]);
                assert(all[j] == b[j - a.len()]);
            }
        }
    }
}

/// Every frame still pending lies in one of the allocation runs.
pub proof fn lemma_pending_within_runs(v: FrameAllocatorView, k: int)
    requires
        v.wf(),
        0 <= k < v.pending().len(),
    ensures
        in_some_run(v.runs, v.pending()[k]),
    decreases v.runs.len(),
{
    let c = v.cur_run;
    let r = v.runs[c];
    let x: u64 = if v.next_frame > r.0 { v.next_frame } else { r.0 };
    let a = run_frames((x, r.1));
    let rest = v.runs.subrange(c + 1, v.runs.len() as int);
    if k < a.len() {
        assert(v.pending()[k] == a[k]);
        assert(v.runs[c].0 <= v.pending()[k] && v.pending()[k] < v.runs[c].1);
    } else {
        lemma_frames_of_within(rest, k - a.len());
        let f = frames_of(rest)[k - a.len()];
        assert(v.pending()[k] == f);
        let i = choose|i: int| 0 <= i < rest.len() && #[trigger] rest[i].0 <= f && f < rest[i].1;
        assert(v.runs[c + 1 + i] == rest[i]);
    }
}

proof fn lemma_frames_of_within(runs: Seq<(u64, u64)>, k: int)
    requires
        0 <= k < frames_of(runs).len(),
    ensures
        in_some_run(runs, frames_of(runs)[k]),
    decreases runs.len(),
{
    let a = run_frames(runs[0]);
    let rest = runs.subrange(1, runs.len() as int);
    if k < a.len() {
        assert(runs[0].0 <= frames_of(runs)[k] && frames_of(runs)[k] < runs[0].1);
    } else {
        lemma_frames_of_within(rest, k - a.len());
        let f = frames_of(rest)[k - a.len()];
        let i = choose|i: int| 0 <= i < rest.len() && #[trigger] rest[i].0 <= f && f < rest[i].1;
        assert(runs[1 + i] == rest[i]);
    }
}

/// When the runs are in address order and disjoint, the pending frames are
/// strictly increasing, so the allocator never hands out the same frame twice:
/// whatever it hands out is taken off the front of the pending sequence.
pub proof fn lemma_pending_strictly_increasing(v: FrameAllocatorView)
    requires
        v.wf(),
        runs_sorted_disjoint(v.runs),
    ensures
        strictly_increasing(v.pending()),
{
    if 0 <= v.cur_run < v.runs.len() {
        let c = v.cur_run;
        let r = v.runs[c];
        let x: u64 = if v.next_frame > r.0 { v.next_frame } else { r.0 };
        let a = run_frames((x, r.1));
        let rest = v.runs.subrange(c + 1, v.runs.len() as int);
        assert forall|i: int, j: int| 0 <= i < j < rest.len() implies #[trigger] rest[i].1 <= #[trigger] rest[j].0 by {
            assert(v.runs[c + 1 + i].1 <= v.runs[c + 1 + j].0);
        }
        lemma_frames_of_bounds(rest);
        let b = frames_of(rest);
        let p = v.pending();
        assert(p == a + b);
        if rest.len() > 0 {
            assert(r.1 <= v.runs[c + 1].0);
            assert(rest[0] == v.runs[c + 1]);
        }
        assert forall|i: int, j: int| 0 <= i < j < p.len() implies #[trigger] p[i] < #[trigger] p[j] by {
            if j < a.len() {
            } else if i < a.len() {
                assert(p[j] == b[j - a.len()]);
                assert(rest.len() > 0);
            } else {
                assert(p[i] == b[i - a.len()]);
                assert(p[j] == b[j - a.len()]);
            }
        }
    }
}


/// The allocator state after a block search from `v` for `n` frames.
pub open spec fn after_block_search(v: FrameAllocatorView, n: u64) -> FrameAllocatorView {
    let s = block_search(v.runs, v.cur_run, v.next_frame, n);
    FrameAllocatorView { cur_run: s.0, next_frame: s.1, ..v }
}

/// A block search only ever drops frames off the front of the pending
/// sequence: afterwards the pending frames are a suffix of those before, and a
/// block that was found is exactly the `n` frames just before that suffix.
pub proof fn lemma_block_search_consumes(v: FrameAllocatorView, n: u64) -> (k: int)
    requires
        v.wf(),
        n > 0,
        !block_search_overflows(v.runs, v.cur_run, v.next_frame, n),
    ensures
        0 <= k <= v.pending().len(),
        after_block_search(v, n).wf(),
        after_block_search(v, n).pending() == v.pending().skip(k),
        block_search(v.runs, v.cur_run, v.next_frame, n).2 matches Some(x) ==> n <= k
            && v.pending().subrange(k - n, k) == run_frames((x, (x + n) as u64)),
    decreases v.runs.len() - v.cur_run,
{
    let w = after_block_search(v, n);
    if v.cur_run >= v.runs.len() {
        assert(v.pending().skip(0) =~= v.pending());
        0
    } else {
        let c = v.cur_run;
        let r = v.runs[c];
        let x: u64 = if v.next_frame < r.0 { r.0 } else { v.next_frame };
        let a = run_frames((x, r.1));
        let rest = frames_of(v.runs.subrange(c + 1, v.runs.len() as int));
        let p = v.pending();
        assert(p == a + rest);
        if x + n <= r.1 {
            assert(w.pending() == run_frames(((x + n) as u64, r.1)) + rest);
            assert(w.pending() =~= p.skip(n as int));
            assert(p.subrange(0, n as int) =~= run_frames((x, (x + n) as u64)));
            n as int
        } else if c + 1 < v.runs.len() {
            let v1 = FrameAllocatorView { cur_run: c + 1, next_frame: v.runs[c + 1].0, ..v };
            assert(v1.runs[c + 1].0 < v1.runs[c + 1].1);
            lemma_frames_of_unfold(v.runs, c + 1);
            assert(v1.pending() =~= rest);
            let k1 = lemma_block_search_consumes(v1, n);
            assert(after_block_search(v1, n) == w);
            let k = a.len() + k1;
            assert(p.skip(k) =~= rest.skip(k1));
            if block_search(v.runs, v.cur_run, v.next_frame, n).2 is Some {
                assert(p.subrange(k - n, k) =~= rest.subrange(k1 - n, k1));
            }
            k
        } else {
            assert(v.runs.subrange(c + 1, v.runs.len() as int) =~= Seq::<(u64, u64)>::empty());
            assert(w.pending() =~= Seq::<u64>::empty());
            assert(p.skip(p.len() as int) =~= Seq::<u64>::empty());
            p.len() as int
        }
    }
}


/// A block found by the search lies inside a single run.
pub proof fn lemma_block_search_in_run(runs: Seq<(u64, u64)>, cur: int, next: u64, n: u64)
    requires
        block_search(runs, cur, next, n).2 is Some,
    ensures
        ({
            let s = block_search(runs, cur, next, n);
            &&& 0 <= s.0 < runs.len()
            &&& runs[s.0].0 <= s.2.unwrap()
            &&& s.2.unwrap() + n == s.1
            &&& s.1 <= runs[s.0].1
        }),
    decreases runs.len() - cur,
{
    let r = runs[cur];
    let x = if next < r.0 { r.0 } else { next };
    if !(x + n <= r.1) && cur + 1 < runs.len() {
        lemma_block_search_in_run(runs, cur + 1, runs[cur + 1].0, n);
    }
}

/// No request that fits is refused: when the current run still has `n` frames
/// from `max(next, start)`, the block found starts exactly there, in that run,
/// and the search ends just past it.
pub proof fn lemma_block_search_fits(runs: Seq<(u64, u64)>, cur: int, next: u64, n: u64)
    requires
        0 <= cur < runs.len(),
        (if next < runs[cur].0 { runs[cur].0 } else { next }) + n <= runs[cur].1,
    ensures
        ({
            let x = if next < runs[cur].0 { runs[cur].0 } else { next };
            block_search(runs, cur, next, n) == (cur, (x + n) as u64, Some(x))
        }),
{
}

/// The block search is first fit: the block it finds lies in the first run,
/// from the current one on, that can hold it (the current run counted from
/// `max(next, start)`, later runs from their start), and starts at the first
/// free frame of that run; it finds none exactly when no such run exists.
pub proof fn lemma_block_search_first_fit(runs: Seq<(u64, u64)>, cur: int, next: u64, n: u64)
    requires
        0 <= cur < runs.len(),
    ensures
        ({
            let s = block_search(runs, cur, next, n);
            let x = if next < runs[cur].0 { runs[cur].0 } else { next };
            &&& s.2 is None <==> (x + n > runs[cur].1
                && forall|i: int| cur < i < runs.len() ==> #[trigger] runs[i].0 + n > runs[i].1)
            &&& s.2 is Some ==> {
                &&& cur <= s.0 < runs.len()
                &&& s.2 == Some(if s.0 == cur { x } else { runs[s.0].0 })
                &&& s.0 > cur ==> x + n > runs[cur].1
                &&& forall|i: int| cur < i < s.0 ==> #[trigger] runs[i].0 + n > runs[i].1
            }
        }),
    decreases runs.len() - cur,
{
    let r = runs[cur];
    let x = if next < r.0 { r.0 } else { next };
    if !(x + n <= r.1) && cur + 1 < runs.len() {
        lemma_block_search_first_fit(runs, cur + 1, runs[cur + 1].0, n);
        let s1 = block_search(runs, cur + 1, runs[cur + 1].0, n);
        if s1.2 is None {
            assert forall|i: int| cur < i < runs.len() implies #[trigger] runs[i].0 + n > runs[i].1 by {
                if i > cur + 1 {
                    assert(runs[i].0 + n > runs[i].1);
                }
            }
        } else {
            assert forall|i: int| cur < i < s1.0 implies #[trigger] runs[i].0 + n > runs[i].1 by {
                if i > cur + 1 {
                    assert(runs[i].0 + n > runs[i].1);
                } else {
                    assert(s1.0 > cur + 1);
                }
            }
        }
    }
}

/// Frames in all runs, summed without saturation.
pub open spec fn total_span(runs: Seq<(u64, u64)>) -> nat
    decreases runs.len(),
{
    if runs.len() == 0 { 0 } else { span(runs[0].0, runs[0].1) + total_span(runs.subrange(1, runs.len() as int)) }
}

proof fn lemma_frames_of_len(runs: Seq<(u64, u64)>)
    ensures
        frames_of(runs).len() == total_span(runs),
    decreases runs.len(),
{
    if runs.len() > 0 {
        lemma_frames_of_len(runs.subrange(1, runs.len() as int));
    }
}

proof fn lemma_total_span_push(runs: Seq<(u64, u64)>, r: (u64, u64))
    ensures
        total_span(runs.push(r)) == total_span(runs) + span(r.0, r.1),
    decreases runs.len(),
{
    if runs.len() > 0 {
        let rest = runs.subrange(1, runs.len() as int);
        assert(runs.push(r)[0] == runs[0]);
        assert(runs.push(r).subrange(1, runs.len() as int + 1) =~= rest.push(r));
        lemma_total_span_push(rest, r);
    } else {
        assert(runs.push(r)[0] == r);
        assert(runs.push(r).subrange(1, 1) =~= Seq::<(u64, u64)>::empty());
        assert(total_span(Seq::<(u64, u64)>::empty()) == 0);
    }
}

proof fn lemma_total_span_prefix(runs: Seq<(u64, u64)>, m: int)
    requires
        0 <= m <= runs.len(),
    ensures
        total_span(runs.subrange(0, m)) <= total_span(runs),
    decreases runs.len(),
{
    if m > 0 {
        let rest = runs.subrange(1, runs.len() as int);
        assert(runs.subrange(0, m).subrange(1, m) =~= rest.subrange(0, m - 1));
        lemma_total_span_prefix(rest, m - 1);
    }
}

proof fn lemma_usable_frames_total(map: Seq<MemRegion>)
    ensures
        usable_frames_of(map) == (if total_span(usable_runs(map)) > u64::MAX {
            u64::MAX as int
        } else {
            total_span(usable_runs(map)) as int
        }),
    decreases map.len(),
{
    if map.len() > 0 {
        let pre = map.drop_last();
        lemma_usable_frames_total(pre);
        let m = map.last();
        if m.usable && m.end_frame_number > m.start_frame_number {
            lemma_total_span_push(usable_runs(pre), (m.start_frame_number, m.end_frame_number));
        }
    }
}

proof fn lemma_map_runs_accounted(map: Seq<MemRegion>)
    ensures
        usable_frames_of(map) == u64::MAX || frames_of(map_runs(map)).len() <= usable_frames_of(map),
{
    lemma_usable_frames_total(map);
    lemma_frames_of_len(map_runs(map));
    let u = usable_runs(map);
    if u.len() > MAX_RUNS {
        lemma_total_span_prefix(u, MAX_RUNS as int);
    }
}

/// Frames handed out never exceed the usable frames of the map.
pub proof fn lemma_allocated_within_usable(v: FrameAllocatorView)
    requires
        v.accounted(),
    ensures
        v.allocated <= v.usable_frames,
{
}

/// No two runs share a frame (in whatever order they come).
pub open spec fn runs_disjoint(runs: Seq<(u64, u64)>) -> bool {
    forall|i: int, j: int|
        0 <= i < runs.len() && 0 <= j < runs.len() && i != j ==> #[trigger] runs[i].1 <= #[trigger] runs[j].0
            || runs[j].1 <= runs[i].0
}

proof fn lemma_frames_of_distinct(runs: Seq<(u64, u64)>)
    requires
        runs_disjoint(runs),
    ensures
        frames_of(runs).no_duplicates(),
    decreases runs.len(),
{
    if runs.len() > 0 {
        let rest = runs.subrange(1, runs.len() as int);
        assert forall|i: int, j: int|
            0 <= i < rest.len() && 0 <= j < rest.len() && i != j implies #[trigger] rest[i].1 <= #[trigger] rest[j].0
            || rest[j].1 <= rest[i].0 by {
            assert(rest[i] == runs[i + 1] && rest[j] == runs[j + 1]);
        }
        lemma_frames_of_distinct(rest);
        let a = run_frames(runs[0]);
        let b = frames_of(rest);
        let all = frames_of(runs);
        assert(all == a + b);
        assert forall|x: int, y: int| 0 <= x < all.len() && 0 <= y < all.len() && x != y implies all[x] != all[y] by {
            if x < a.len() && y >= a.len() {
                lemma_frames_of_within(rest, y - a.len());
                let f = b[y - a.len()];
                let i = choose|i: int| 0 <= i < rest.len() && #[trigger] rest[i].0 <= f && f < rest[i].1;
                assert(runs[i + 1] == rest[i]);
                assert(runs[0].1 <= runs[i + 1].0 || runs[i + 1].1 <= runs[0].0);
            } else if y < a.len() && x >= a.len() {
                lemma_frames_of_within(rest, x - a.len());
                let f = b[x - a.len()];
                let i = choose|i: int| 0 <= i < rest.len() && #[trigger] rest[i].0 <= f && f < rest[i].1;
                assert(runs[i + 1] == rest[i]);
                assert(runs[0].1 <= runs[i + 1].0 || runs[i + 1].1 <= runs[0].0);
            } else if x >= a.len() && y >= a.len() {
                assert(all[x] == b[x - a.len()] && all[y] == b[y - a.len()]);
            }
        }
    }
}

/// When no two runs share a frame, no frame is pending twice.
pub proof fn lemma_pending_distinct(v: FrameAllocatorView)
    requires
        v.wf(),
        runs_disjoint(v.runs),
    ensures
        v.pending().no_duplicates(),
{
    if 0 <= v.cur_run < v.runs.len() {
        let c = v.cur_run;
        let r = v.runs[c];
        let x: u64 = if v.next_frame > r.0 { v.next_frame } else { r.0 };
        let a = run_frames((x, r.1));
        let rest = v.runs.subrange(c + 1, v.runs.len() as int);
        assert forall|i: int, j: int|
            0 <= i < rest.len() && 0 <= j < rest.len() && i != j implies #[trigger] rest[i].1 <= #[trigger] rest[j].0
            || rest[j].1 <= rest[i].0 by {
            assert(rest[i] == v.runs[c + 1 + i] && rest[j] == v.runs[c + 1 + j]);
        }
        lemma_frames_of_distinct(rest);
        let b = frames_of(rest);
        let p = v.pending();
        assert(p == a + b);
        assert forall|s: int, t: int| 0 <= s < p.len() && 0 <= t < p.len() && s != t implies p[s] != p[t] by {
            if s < a.len() && t >= a.len() {
                lemma_frames_of_within(rest, t - a.len());
                let f = b[t - a.len()];
                let i = choose|i: int| 0 <= i < rest.len() && #[trigger] rest[i].0 <= f && f < rest[i].1;
                assert(v.runs[c + 1 + i] == rest[i]);
                assert(v.runs[c].1 <= v.runs[c + 1 + i].0 || v.runs[c + 1 + i].1 <= v.runs[c].0);
            } else if t < a.len() && s >= a.len() {
                lemma_frames_of_within(rest, s - a.len());
                let f = b[s - a.len()];
                let i = choose|i: int| 0 <= i < rest.len() && #[trigger] rest[i].0 <= f && f < rest[i].1;
                assert(v.runs[c + 1 + i] == rest[i]);
                assert(v.runs[c].1 <= v.runs[c + 1 + i].0 || v.runs[c + 1 + i].1 <= v.runs[c].0);
            } else if s >= a.len() && t >= a.len() {
                assert(p[s] == b[s - a.len()] && p[t] == b[t - a.len()]);
            }
        }
    }
}

/// When no two runs share a frame, a frame handed out is never handed out
/// again: neither the frames of a block just found (a single frame is a block
/// of one) nor any frame skipped on the way is still pending afterwards.
pub proof fn lemma_handed_out_not_pending(v: FrameAllocatorView, n: u64)
    requires
        v.wf(),
        runs_disjoint(v.runs),
        n > 0,
        !block_search_overflows(v.runs, v.cur_run, v.next_frame, n),
    ensures
        block_search(v.runs, v.cur_run, v.next_frame, n).2 matches Some(x) ==> forall|f: u64|
            x <= f < x + n ==> !after_block_search(v, n).pending().contains(f),
{
    let k = lemma_block_search_consumes(v, n);
    lemma_pending_distinct(v);
    if block_search(v.runs, v.cur_run, v.next_frame, n).2 is Some {
        lemma_block_search_in_run(v.runs, v.cur_run, v.next_frame, n);
    }
    let p = v.pending();
    let w = after_block_search(v, n).pending();
    if block_search(v.runs, v.cur_run, v.next_frame, n).2 is Some {
        let x = block_search(v.runs, v.cur_run, v.next_frame, n).2.unwrap();
        assert forall|f: u64| x <= f < x + n implies !w.contains(f) by {
            let blk = p.subrange(k - n, k);
            assert(blk[f - x] == f);
            assert(p[k - n + (f - x)] == f);
            if w.contains(f) {
                let t = choose|t: int| 0 <= t < w.len() && w[t] == f;
                assert(w[t] == p[k + t]);
            }
        }
    }
}

impl View for FrameAllocator {
    type V = FrameAllocatorView;

    closed spec fn view(&self) -> FrameAllocatorView {
        FrameAllocatorView {
            runs: self.runs@.subrange(0, self.run_count as int),
            cur_run: self.cur_run as int,
            next_frame: self.next_frame,
            allocated: self.allocated,
            usable_frames: self.usable_frames,
            regions: self.regions,
            usable_regions: self.usable_regions,
            total_frames_seen: self.total_frames_seen,
            phys_offset: self.phys_offset,
        }
    }
}

impl FrameAllocator {
    /// Well-formedness of the allocator's fields.
    pub closed spec fn wf(&self) -> bool {
        &&& self.run_count <= MAX_RUNS
        &&& self@.wf()
        &&& self@.accounted()
    }

    /// The view of a well-formed allocator is well-formed.
    pub proof fn lemma_view_wf(&self)
        requires
            self.wf(),
        ensures
            self@.wf(),
            self@.accounted(),
    {
    }

    /// An allocator with no runs: it never hands out a frame.
    pub fn empty() -> (a: Self)
        ensures
            a.wf(),
            a@.runs.len() == 0,
            a@.cur_run == 0,
            a@.next_frame == 0,
            a@.allocated == 0,
            a@.usable_frames == 0,
            a@.regions == 0,
            a@.usable_regions == 0,
            a@.total_frames_seen == 0,
            a@.phys_offset == 0,
            a@.pending().len() == 0,
    {
        Self {
            runs: [(0u64, 0u64); 64],
            run_count: 0,
            cur_run: 0,
            next_frame: 0,
            allocated: 0,
            usable_frames: 0,
            regions: 0,
            usable_regions: 0,
            total_frames_seen: 0,
            phys_offset: 0,
        }
    }

    /// Builds the allocator from the boot memory map: counts regions and frames,
    /// and keeps the first `MAX_RUNS` usable non-empty regions as allocation runs.
    pub fn from_memory_map(map: &[MemRegion], phys_offset: u64) -> (a: Self)
        requires
            map@.len() <= u32::MAX,
        ensures
            a.wf(),
            a@.runs == map_runs(map@),
            a@.cur_run == 0,
            a@.next_frame == (if a@.runs.len() > 0 { a@.runs[0].0 } else { 0 }),
            a@.allocated == 0,
            a@.regions == map@.len(),
            a@.usable_regions == usable_runs(map@).len(),
            a@.usable_frames == usable_frames_of(map@),
            a@.total_frames_seen == frames_seen(map@),
            a@.phys_offset == phys_offset,
            a@.pending() == frames_of(map_runs(map@)),
    {
        let mut a = Self::empty();
        a.phys_offset = phys_offset;
        let mut i: usize = 0;
        while i < map.len()
            invariant
                0 <= i <= map@.len(),
                map@.len() <= u32::MAX,
                a.phys_offset == phys_offset,
                a.cur_run == 0,
                a.next_frame == 0,
                a.allocated == 0,
                a.regions == i,
                a.usable_regions == usable_runs(map@.subrange(0, i as int)).len(),
                a.run_count <= MAX_RUNS,
                a.run_count == (if usable_runs(map@.subrange(0, i as int)).len() <= MAX_RUNS {
                    usable_runs(map@.subrange(0, i as int)).len()
                } else {
                    MAX_RUNS as nat
                }),
                forall|k: int|
                    0 <= k < a.run_count ==> #[trigger] a.runs@[k] == usable_runs(
                        map@.subrange(0, i as int),
                    )[k],
                a.usable_frames == usable_frames_of(map@.subrange(0, i as int)),
                a.total_frames_seen == frames_seen(map@.subrange(0, i as int)),
                forall|k: int| 0 <= k < usable_runs(map@.subrange(0, i as int)).len()
                    ==> #[trigger] usable_runs(map@.subrange(0, i as int))[k].0 < usable_runs(map@.subrange(0, i as int))[k].1,
            decreases map@.len() - i,
        {
            let region = map[i];
            proof {
                let pre = map@.subrange(0, i as int);
                let post = map@.subrange(0, i + 1);
                assert(post.drop_last() =~= pre);
                assert(post.last() == region);
                lemma_usable_runs_len(pre);
            }
            a.regions = a.regions + 1;
            let start = region.start_frame_number;
            let end = region.end_frame_number;
            if end > start {
                a.total_frames_seen = a.total_frames_seen.saturating_add(end - start);
            }
            if region.usable && end > start {
                if a.run_count < MAX_RUNS {
                    a.runs[a.run_count] = (start, end);
                    a.run_count = a.run_count + 1;
                }
                a.usable_regions = a.usable_regions + 1;
                a.usable_frames = a.usable_frames.saturating_add(end - start);
            }
            i = i + 1;
        }
        proof {
            assert(map@.subrange(0, map@.len() as int) =~= map@);
            assert(a@.runs =~= map_runs(map@));
        }
        if a.run_count > 0 {
            a.cur_run = 0;
            a.next_frame = a.runs[0].0;
        }
        proof {
            let v = a@;
            if v.runs.len() > 0 {
                assert(v.pending() =~= frames_of(v.runs));
            }
            lemma_map_runs_accounted(map@);
        }
        a
    }

    /// Hands out the next frame: the first frame still pending.
    pub fn allocate_frame(&mut self) -> (r: Option<u64>)
        requires
            old(self).wf(),
            old(self)@.pending().len() > 0 ==> old(self)@.allocated < u64::MAX,
        ensures
            final(self).wf(),
            same_map(final(self)@, old(self)@),
            r == block_search(old(self)@.runs, old(self)@.cur_run, old(self)@.next_frame, 1).2,
            final(self)@.cur_run == block_search(old(self)@.runs, old(self)@.cur_run, old(self)@.next_frame, 1).0,
            final(self)@.next_frame == block_search(old(self)@.runs, old(self)@.cur_run, old(self)@.next_frame, 1).1,
            match r {
                Some(f) => {
                    &&& old(self)@.pending().len() > 0
                    &&& f == old(self)@.pending()[0]
                    &&& in_some_run(old(self)@.runs, f)
                    &&& final(self)@.pending() == old(self)@.pending().drop_first()
                    &&& final(self)@.allocated == old(self)@.allocated + 1
                },
                None => {
                    &&& old(self)@.pending().len() == 0
                    &&& final(self)@.pending().len() == 0
                    &&& final(self)@.allocated == old(self)@.allocated
                },
            },
    {
        let ghost v0 = self@;
        while self.cur_run < self.run_count
            invariant
                v0 == old(self)@,
                self.wf(),
                same_map(self@, v0),
                self@.allocated == v0.allocated,
                self@.pending() == v0.pending(),
                v0.pending().len() > 0 ==> v0.allocated < u64::MAX,
                block_search(self@.runs, self@.cur_run, self@.next_frame, 1)
                    == block_search(v0.runs, v0.cur_run, v0.next_frame, 1),
            decreases self.run_count - self.cur_run,
        {
            let (start, end) = self.runs[self.cur_run];
            proof {
                assert(self@.runs[self.cur_run as int] == (start, end));
            }
            if self.next_frame < start {
                self.next_frame = start;
            }
            if self.next_frame < end {
                let f = self.next_frame;
                proof {
                    let v = self@;
                    let rest = frames_of(v.runs.subrange(v.cur_run + 1, v.runs.len() as int));
                    assert(v.pending() == run_frames((f, end)) + rest);
                assert(v.pending()[0] == f);
                lemma_pending_within_runs(v, 0);
                    assert(run_frames((f, end)).drop_first() =~= run_frames(((f + 1) as u64, end)));
                    assert((run_frames((f, end)) + rest).drop_first() =~= run_frames((f, end)).drop_first() + rest);
                }
                self.next_frame = self.next_frame + 1;
                self.allocated = self.allocated + 1;
                return Some(f);
            }
            proof {
                let v = self@;
                assert(run_frames((self.next_frame, end)) =~= Seq::<u64>::empty());
                assert(v.pending() =~= frames_of(v.runs.subrange(v.cur_run + 1, v.runs.len() as int)));
            }
            self.cur_run = self.cur_run + 1;
            if self.cur_run < self.run_count {
                self.next_frame = self.runs[self.cur_run].0;
                proof {
                    let v = self@;
                    lemma_frames_of_unfold(v.runs, v.cur_run);
                    assert(v.runs[v.cur_run].0 < v.runs[v.cur_run].1);
                }
            } else {
                proof {
                    let v = self@;
                    assert(v.runs.subrange(v.cur_run, v.runs.len() as int) =~= Seq::<(u64, u64)>::empty());
                }
            }
        }
        None
    }

    /// Hands out `n` consecutive frames from a single run (see `block_search`);
    /// a request for no frames gets `Some(0)` and changes nothing.
    pub fn allocate_frames(&mut self, n: u64) -> (r: Option<u64>)
        requires
            old(self).wf(),
            n > 0 ==> !block_search_overflows(old(self)@.runs, old(self)@.cur_run, old(self)@.next_frame, n),
            n > 0 && block_search(old(self)@.runs, old(self)@.cur_run, old(self)@.next_frame, n).2 is Some
                ==> old(self)@.allocated + n <= u64::MAX,
        ensures
            final(self).wf(),
            same_map(final(self)@, old(self)@),
            n == 0 ==> r == Some(0u64) && final(self)@ == old(self)@,
            n > 0 ==> {
                let s = block_search(old(self)@.runs, old(self)@.cur_run, old(self)@.next_frame, n);
                &&& r == s.2
                &&& final(self)@.cur_run == s.0
                &&& final(self)@.next_frame == s.1
                &&& final(self)@.allocated == old(self)@.allocated + (if s.2 is Some { n } else { 0 })
                &&& r matches Some(x) ==> exists|i: int| 0 <= i < old(self)@.runs.len()
                    && #[trigger] old(self)@.runs[i].0 <= x && x + n <= old(self)@.runs[i].1
            },
    {
        if n == 0 {
            return Some(0);
        }
        let ghost v0 = self@;
        let ghost k: int;
        proof {
            if block_search(v0.runs, v0.cur_run, v0.next_frame, n).2 is Some {
                lemma_block_search_in_run(v0.runs, v0.cur_run, v0.next_frame, n);
            }
            k = lemma_block_search_consumes(v0, n);
        }
        while self.cur_run < self.run_count
            invariant
                v0 == old(self)@,
                n > 0,
                self.run_count <= MAX_RUNS,
                self@.wf(),
                v0.accounted(),
                0 <= k <= v0.pending().len(),
                after_block_search(v0, n).pending() == v0.pending().skip(k),
                block_search(v0.runs, v0.cur_run, v0.next_frame, n).2 is Some ==> n <= k,
                same_map(self@, v0),
                self@.allocated == v0.allocated,
                block_search(self@.runs, self@.cur_run, self@.next_frame, n)
                    == block_search(v0.runs, v0.cur_run, v0.next_frame, n),
                !block_search_overflows(self@.runs, self@.cur_run, self@.next_frame, n),
                block_search(v0.runs, v0.cur_run, v0.next_frame, n).2 is Some ==> v0.allocated + n <= u64::MAX,
                block_search(v0.runs, v0.cur_run, v0.next_frame, n).2 matches Some(x) ==> exists|i: int| 0 <= i < v0.runs.len()
                    && #[trigger] v0.runs[i].0 <= x && x + n <= v0.runs[i].1,
            decreases self.run_count - self.cur_run,
        {
            let (start, end) = self.runs[self.cur_run];
            proof {
                assert(self@.runs[self.cur_run as int] == (start, end));
            }
            if self.next_frame < start {
                self.next_frame = start;
            }
            if self.next_frame + n <= end {
                let f = self.next_frame;
                self.next_frame = self.next_frame + n;
                self.allocated = self.allocated + n;
                proof {
                    assert(self@.cur_run == after_block_search(v0, n).cur_run);
                    assert(self@.next_frame == after_block_search(v0, n).next_frame);
                    assert(self@.pending() == after_block_search(v0, n).pending());
                }
                return Some(f);
            }
            self.cur_run = self.cur_run + 1;
            if self.cur_run < self.run_count {
                self.next_frame = self.runs[self.cur_run].0;
                proof {
                    assert(self@.runs[self.cur_run as int].0 < self@.runs[self.cur_run as int].1);
                }
            }
        }
        None
    }

    /// Virtual address of `frame` in the physical-memory window: `frame * 4096 + offset`.
    pub fn frame_to_virt(&self, frame: u64) -> (va: u64)
        requires
            frame * FRAME_SIZE + self@.phys_offset <= u64::MAX,
        ensures
            va == frame * FRAME_SIZE + self@.phys_offset,
    {
        frame * FRAME_SIZE + self.phys_offset
    }

    /// Memory-map statistics, with the heap fields left empty.
    pub fn report_base(&self) -> (rep: MemMapReport)
        ensures
            rep == (MemMapReport {
                regions: self@.regions,
                usable_regions: self@.usable_regions,
                usable_frames: self@.usable_frames,
                total_frames_seen: self@.total_frames_seen,
                allocated: self@.allocated,
                free_remaining: if self@.usable_frames >= self@.allocated {
                    (self@.usable_frames - self@.allocated) as u64
                } else {
                    0
                },
                phys_offset: self@.phys_offset,
                heap_base_phys: 0,
                heap_bytes: 0,
                heap_used: 0,
                heap_write_ok: false,
            }),
    {
        MemMapReport {
            regions: self.regions,
            usable_regions: self.usable_regions,
            usable_frames: self.usable_frames,
            total_frames_seen: self.total_frames_seen,
            allocated: self.allocated,
            free_remaining: self.usable_frames.saturating_sub(self.allocated),
            phys_offset: self.phys_offset,
            heap_base_phys: 0,
            heap_bytes: 0,
            heap_used: 0,
            heap_write_ok: false,
        }
    }
}

} // verus!
