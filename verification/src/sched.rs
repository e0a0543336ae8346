//! Round-robin domain scheduler: a circular ready queue over task slots, one
//! domain evaluation per quantum, and timer-driven preemption.

use vstd::prelude::*;
use crate::domain::{DomainEval, DOMAIN_COUNT};

verus! {

/// Task slots (must cover the whole domain table).
pub const MAX_TASKS: usize = 640;
/// Capacity of the ready queue.
pub const READY_CAP: usize = 640;

/// Life cycle of a task slot.
#[derive(Clone, Copy, Debug, PartialEq, Eq, Structural)]
pub enum TaskState {
    Free,
    Ready,
    Running,
    Done,
}

/// One task: the domain it evaluates and what its last quantum computed.
#[derive(Clone, Copy, Debug)]
pub struct Task {
    pub state: TaskState,
    pub domain_index: u16,
    pub ticks: u32,
    pub preempts: u32,
    pub last_s_bits: u64,
    pub last_trit: i8,
    pub last_c_bits: u64,
}

/// An unused task slot.
pub open spec fn free_task() -> Task {
    Task {
        state: TaskState::Free,
        domain_index: 0,
        ticks: 0,
        preempts: 0,
        last_s_bits: 0,
        last_trit: 0,
        last_c_bits: 0,
    }
}

/// A freshly seeded task for domain `i`.
pub open spec fn seeded_task(i: int) -> Task {
    Task {
        state: TaskState::Ready,
        domain_index: i as u16,
        ticks: 0,
        preempts: 0,
        last_s_bits: 0,
        last_trit: 0,
        last_c_bits: 0,
    }
}

impl Task {
    /// An unused task slot.
    pub fn free() -> (t: Task)
        ensures
            t == free_task(),
    {
        Task {
            state: TaskState::Free,
            domain_index: 0,
            ticks: 0,
            preempts: 0,
            last_s_bits: 0,
            last_trit: 0,
            last_c_bits: 0,
        }
    }
}

/// The scheduler: task slots, a circular ready queue of slot indices, and counters.
pub struct Scheduler {
    pub tasks: [Task; 640],
    pub task_count: usize,
    ready: [u16; 640],
    ready_head: usize,
    ready_tail: usize,
    ready_len: usize,
    pub current: Option<u16>,
    pub switches: u32,
    pub quanta_run: u32,
    pub preempt_count: u32,
    /// Timer ticks allowed per quantum before a forced preemption.
    pub quantum_ticks: u32,
    ticks_in_quantum: u32,
}

/// Mathematical state of the scheduler; the ready queue is the sequence of
/// slots from head to tail.
#[verifier::ext_equal]
pub struct SchedView {
    pub tasks: Seq<Task>,
    pub task_count: int,
    pub queue: Seq<u16>,
    pub current: Option<u16>,
    pub switches: u32,
    pub quanta_run: u32,
    pub preempt_count: u32,
    pub quantum_ticks: u32,
    pub ticks_in_quantum: u32,
}

impl View for Scheduler {
    type V = SchedView;

    closed spec fn view(&self) -> SchedView {
        SchedView {
            tasks: self.tasks@,
            task_count: self.task_count as int,
            queue: Seq::new(
                self.ready_len as nat,
                |i: int| self.ready@[(self.ready_head + i) % (READY_CAP as int)],
            ),
            current: self.current,
            switches: self.switches,
            quanta_run: self.quanta_run,
            preempt_count: self.preempt_count,
            quantum_ticks: self.quantum_ticks,
            ticks_in_quantum: self.ticks_in_quantum,
        }
    }
}

/// Well-formed scheduler state: slot counts in range, every queued slot names
/// a task slot.
pub open spec fn sched_wf(v: SchedView) -> bool {
    &&& v.tasks.len() == MAX_TASKS
    &&& 0 <= v.task_count <= MAX_TASKS
    &&& v.queue.len() <= READY_CAP
    &&& forall|k: int| 0 <= k < v.queue.len() ==> #[trigger] v.queue[k] < MAX_TASKS
}


/// How many domains seeding takes: the whole table, capped by the task slots
/// and the registry size.
pub open spec fn seed_count(dom_len: nat) -> nat {
    let a = if dom_len <= MAX_TASKS { dom_len } else { MAX_TASKS as nat };
    if a <= DOMAIN_COUNT { a } else { DOMAIN_COUNT as nat }
}

/// The state after seeding: slots `0..n` hold fresh ready tasks for domains
/// `0..n`, and their slot numbers are appended to the ready queue as far as it
/// has room.
pub open spec fn seeded(v: SchedView, dom_len: nat) -> SchedView {
    let n = seed_count(dom_len);
    let room = READY_CAP - v.queue.len();
    let k = if n <= room { n } else { room as nat };
    SchedView {
        tasks: Seq::new(MAX_TASKS as nat, |i: int| if i < n { seeded_task(i) } else { v.tasks[i] }),
        task_count: n as int,
        queue: v.queue + Seq::new(k, |i: int| i as u16),
        current: None,
        ticks_in_quantum: 0,
        ..v
    }
}

/// Slots below `n` whose task is ready, in slot order.
pub open spec fn ready_slots(tasks: Seq<Task>, n: int) -> Seq<u16>
    decreases n,
{
    if n <= 0 {
        Seq::empty()
    } else {
        let r = ready_slots(tasks, n - 1);
        if tasks[n - 1].state == TaskState::Ready { r.push((n - 1) as u16) } else { r }
    }
}

/// The task has a domain in the table to evaluate.
pub open spec fn has_domain(t: Task, dom: Seq<DomainEval>) -> bool {
    (t.domain_index as int) < dom.len()
}

/// A task after one quantum: it records its domain's evaluation and counts a
/// tick; a task whose domain is not in the table is done.
pub open spec fn run_task(t: Task, dom: Seq<DomainEval>) -> Task {
    if has_domain(t, dom) {
        let d = dom[t.domain_index as int];
        Task {
            state: TaskState::Ready,
            ticks: (t.ticks + 1) as u32,
            last_s_bits: d.s_bits,
            last_c_bits: d.c_bits,
            last_trit: d.trit,
            ..t
        }
    } else {
        Task { state: TaskState::Done, ..t }
    }
}

/// The queue a quantum takes its slot from: the ready queue, or, when that is
/// empty, the ready tasks refilled in slot order.
pub open spec fn source_queue(v: SchedView) -> Seq<u16> {
    if v.queue.len() > 0 { v.queue } else { ready_slots(v.tasks, v.task_count) }
}

/// A quantum can run: the queue is non-empty or some task is ready.
pub open spec fn can_run(v: SchedView) -> bool {
    source_queue(v).len() > 0
}

/// One quantum: take the head slot, run its task, put the slot back at the
/// tail, count the switch. Nothing happens (and `false` is returned) when no
/// task can run.
pub open spec fn quantum(v: SchedView, dom: Seq<DomainEval>) -> (SchedView, bool) {
    let q = source_queue(v);
    if q.len() == 0 {
        (v, false)
    } else {
        let slot = q[0];
        let t = v.tasks[slot as int];
        (SchedView {
            tasks: v.tasks.update(slot as int, run_task(t, dom)),
            queue: q.drop_first().push(slot),
            current: Some(slot),
            switches: (v.switches + 1) as u32,
            quanta_run: if has_domain(t, dom) { (v.quanta_run + 1) as u32 } else { v.quanta_run },
            ticks_in_quantum: 0,
            ..v
        }, true)
    }
}

/// A quantum would push the switch counter, the quanta counter or the tick
/// counter of the task it runs past `u32::MAX`.
pub open spec fn quantum_overflows(v: SchedView, dom: Seq<DomainEval>) -> bool {
    let q = source_queue(v);
    &&& q.len() > 0
    &&& (v.switches == u32::MAX || (has_domain(v.tasks[q[0] as int], dom) && (v.quanta_run == u32::MAX
        || v.tasks[q[0] as int].ticks == u32::MAX)))
}


/// `x + 1`, saturated at `u32::MAX`.
pub open spec fn sat_inc(x: u32) -> u32 {
    if x == u32::MAX { x } else { (x + 1) as u32 }
}

/// A timer tick forces a preemption: the tick count of the current quantum,
/// advanced by this tick, reaches the quantum budget.
pub open spec fn tick_fires(v: SchedView) -> bool {
    sat_inc(v.ticks_in_quantum) >= v.quantum_ticks
}

/// The state just before the forced quantum of a firing tick: the preemption
/// is counted, on the scheduler and on the current task if it names a live slot.
pub open spec fn preempted(v: SchedView) -> SchedView {
    SchedView {
        ticks_in_quantum: sat_inc(v.ticks_in_quantum),
        preempt_count: sat_inc(v.preempt_count),
        tasks: match v.current {
            Some(slot) => if (slot as int) < v.task_count {
                v.tasks.update(slot as int, Task { preempts: sat_inc(v.tasks[slot as int].preempts), ..v.tasks[slot as int] })
            } else {
                v.tasks
            },
            None => v.tasks,
        },
        ..v
    }
}

/// One timer tick: count it; once the quantum budget is used up, count a
/// preemption, force a quantum and start a new budget.
pub open spec fn timer_tick(v: SchedView, dom: Seq<DomainEval>) -> SchedView {
    if tick_fires(v) {
        SchedView { ticks_in_quantum: 0, ..quantum(preempted(v), dom).0 }
    } else {
        SchedView { ticks_in_quantum: sat_inc(v.ticks_in_quantum), ..v }
    }
}

/// A timer tick would overflow a counter in its forced quantum.
pub open spec fn tick_overflows(v: SchedView, dom: Seq<DomainEval>) -> bool {
    tick_fires(v) && quantum_overflows(preempted(v), dom)
}

/// A timer tick is injected before iteration `i` of a preemption run.
pub open spec fn tick_at(i: u32, every: u32) -> bool {
    every > 0 && i % every == 0
}

/// Iterations `i..n` of a preemption run: an injected tick where due, then a
/// quantum; the run stops at the first quantum that cannot run. Gives the final
/// state and how many quanta ran.
pub open spec fn preempt_run(v: SchedView, dom: Seq<DomainEval>, n: u32, every: u32, i: u32) -> (SchedView, nat)
    decreases n - i,
{
    if i >= n {
        (v, 0)
    } else {
        let v1 = if tick_at(i, every) { timer_tick(v, dom) } else { v };
        let q = quantum(v1, dom);
        if q.1 {
            let rest = preempt_run(q.0, dom, n, every, (i + 1) as u32);
            (rest.0, rest.1 + 1)
        } else {
            (q.0, 0)
        }
    }
}

/// Some counter would overflow during iterations `i..n` of a preemption run.
pub open spec fn preempt_run_overflows(v: SchedView, dom: Seq<DomainEval>, n: u32, every: u32, i: u32) -> bool
    decreases n - i,
{
    if i >= n {
        false
    } else {
        let v1 = if tick_at(i, every) { timer_tick(v, dom) } else { v };
        let q = quantum(v1, dom);
        ||| (tick_at(i, every) && tick_overflows(v, dom))
        ||| quantum_overflows(v1, dom)
        ||| (q.1 && preempt_run_overflows(q.0, dom, n, every, (i + 1) as u32))
    }
}


proof fn lemma_ready_slots_bounds(tasks: Seq<Task>, n: int)
    requires
        n >= 0,
    ensures
        ready_slots(tasks, n).len() <= n,
        forall|k: int| 0 <= k < ready_slots(tasks, n).len() ==> #[trigger] ready_slots(tasks, n)[k] < n,
    decreases n,
{
    if n > 0 {
        lemma_ready_slots_bounds(tasks, n - 1);
    }
}

proof fn lemma_ready_slots_same_states(a: Seq<Task>, b: Seq<Task>, n: int)
    requires
        a.len() == b.len(),
        n <= a.len(),
        forall|i: int| 0 <= i < a.len() ==> #[trigger] b[i].state == a[i].state,
    ensures
        ready_slots(a, n) == ready_slots(b, n),
    decreases n,
{
    if n > 0 {
        lemma_ready_slots_same_states(a, b, n - 1);
    }
}

/// A quantum keeps the scheduler state well-formed, and leaves a non-empty
/// queue of the same length behind whenever it runs.
pub proof fn lemma_quantum_wf(v: SchedView, dom: Seq<DomainEval>)
    requires
        sched_wf(v),
        !quantum_overflows(v, dom),
    ensures
        sched_wf(quantum(v, dom).0),
        quantum(v, dom).1 == can_run(v),
        quantum(v, dom).1 ==> quantum(v, dom).0.queue.len() == source_queue(v).len(),
        quantum(v, dom).1 ==> quantum(v, dom).0.queue.len() > 0,
        quantum(v, dom).0.task_count == v.task_count,
        quantum(v, dom).0.quantum_ticks == v.quantum_ticks,
        quantum(v, dom).0.preempt_count == v.preempt_count,
        forall|s: int| 0 <= s < v.tasks.len() ==> #[trigger] quantum(v, dom).0.tasks[s].ticks <= v.tasks[s].ticks + 1,
{
    lemma_ready_slots_bounds(v.tasks, v.task_count);
    let q = source_queue(v);
    if q.len() > 0 {
        let w = quantum(v, dom).0;
        let slot = q[0];
        assert(slot < MAX_TASKS);
        assert forall|k: int| 0 <= k < w.queue.len() implies #[trigger] w.queue[k] < MAX_TASKS by {
            if k < q.len() - 1 {
                assert(w.queue[k] == q[k + 1]);
            }
        }
    }
}

/// Counting a preemption keeps the scheduler state well-formed.
pub proof fn lemma_preempted_wf(v: SchedView)
    requires
        sched_wf(v),
    ensures
        sched_wf(preempted(v)),
        preempted(v).queue == v.queue,
        preempted(v).task_count == v.task_count,
        preempted(v).switches == v.switches,
        preempted(v).quanta_run == v.quanta_run,
        preempted(v).quantum_ticks == v.quantum_ticks,
        preempted(v).preempt_count == sat_inc(v.preempt_count),
        forall|s: int| 0 <= s < v.tasks.len() ==> #[trigger] preempted(v).tasks[s].ticks == v.tasks[s].ticks,
{
    let w = preempted(v);
}


/// The state after `k` quanta in a row (no timer ticks in between).
pub open spec fn quanta(v: SchedView, dom: Seq<DomainEval>, k: nat) -> SchedView
    decreases k,
{
    if k == 0 { v } else { quantum(quanta(v, dom, (k - 1) as nat), dom).0 }
}

/// Round robin: `k` quanta on a ready queue of at least `k` slots run the
/// first `k` queued slots in queue order and rotate them to the back; after
/// one quantum per queued slot the queue is back where it started.
pub proof fn lemma_round_robin(v: SchedView, dom: Seq<DomainEval>, k: nat)
    requires
        sched_wf(v),
        v.queue.len() > 0,
        k <= v.queue.len(),
        v.switches + k <= u32::MAX,
        v.quanta_run + k <= u32::MAX,
        forall|s: int| 0 <= s < v.tasks.len() ==> #[trigger] v.tasks[s].ticks + k <= u32::MAX,
    ensures
        sched_wf(quanta(v, dom, k)),
        forall|s: int| 0 <= s < v.tasks.len() ==> #[trigger] quanta(v, dom, k).tasks[s].ticks <= v.tasks[s].ticks + k,
        quanta(v, dom, k).queue == v.queue.skip(k as int) + v.queue.take(k as int),
        k > 0 ==> quanta(v, dom, k).current == Some(v.queue[k - 1]),
        quanta(v, dom, k).switches == v.switches + k,
        quanta(v, dom, k).quanta_run <= v.quanta_run + k,
        quanta(v, dom, k).task_count == v.task_count,
        k == v.queue.len() ==> quanta(v, dom, k).queue == v.queue,
    decreases k,
{
    let q = v.queue;
    if k == 0 {
        assert(q.skip(0) + q.take(0) =~= q);
    } else {
        lemma_round_robin(v, dom, (k - 1) as nat);
        let w = quanta(v, dom, (k - 1) as nat);
        assert(w.queue == q.skip(k - 1) + q.take(k - 1));
        assert(w.queue.len() == q.len());
        assert(w.queue[0] == q[k - 1]);
        lemma_quantum_wf(w, dom);
        assert(w.queue.drop_first().push(w.queue[0]) =~= q.skip(k as int) + q.take(k as int));
    }
    if k == q.len() {
        assert(q.skip(k as int) + q.take(k as int) =~= q);
    }
}


/// Fairness: one sweep of quanta over a ready queue of distinct slots runs
/// every queued task exactly once and touches no other task.
pub proof fn lemma_sweep_runs_each_once(v: SchedView, dom: Seq<DomainEval>, k: nat)
    requires
        sched_wf(v),
        v.queue.len() > 0,
        v.queue.no_duplicates(),
        k <= v.queue.len(),
        v.switches + k <= u32::MAX,
        v.quanta_run + k <= u32::MAX,
        forall|s: int| 0 <= s < v.tasks.len() ==> #[trigger] v.tasks[s].ticks + k <= u32::MAX,
    ensures
        forall|s: int| 0 <= s < MAX_TASKS ==> #[trigger] quanta(v, dom, k).tasks[s] == if v.queue.take(
            k as int,
        ).contains(s as u16) {
            run_task(v.tasks[s], dom)
        } else {
            v.tasks[s]
        },
    decreases k,
{
    let q = v.queue;
    if k > 0 {
        lemma_sweep_runs_each_once(v, dom, (k - 1) as nat);
        lemma_round_robin(v, dom, (k - 1) as nat);
        let w = quanta(v, dom, (k - 1) as nat);
        let slot = q[k - 1];
        assert(w.queue[0] == slot);
        assert(!q.take(k - 1).contains(slot)) by {
            let t = q.take(k - 1);
            if t.contains(slot) {
                let j = choose|j: int| 0 <= j < t.len() && #[trigger] t[j] == slot;
                assert(q[j] == q[k - 1]);
            }
        }
        assert forall|s: int| 0 <= s < MAX_TASKS implies #[trigger] quanta(v, dom, k).tasks[s] == if q.take(
            k as int,
        ).contains(s as u16) {
            run_task(v.tasks[s], dom)
        } else {
            v.tasks[s]
        } by {
            assert(q.take(k as int) =~= q.take(k - 1).push(slot));
            if s == slot as int {
                assert(q.take(k as int).contains(slot)) by {
                    assert(q.take(k as int)[k - 1] == slot);
                }
            } else {
                assert((s as u16) != slot);
                let t = q.take(k as int);
                if t.contains(s as u16) {
                    let j = choose|j: int| 0 <= j < t.len() && #[trigger] t[j] == (s as u16);
                    assert(j < k - 1);
                    assert(q.take(k - 1)[j] == (s as u16));
                }
            }
        }
    }
}

/// The slots `0..k`, in order.
pub open spec fn slot_range(k: nat) -> Seq<u16> {
    Seq::new(k, |i: int| i as u16)
}

/// `q` is `r` rotated: some suffix of `r` followed by the matching prefix.
pub open spec fn is_rotation_of(q: Seq<u16>, r: Seq<u16>) -> bool {
    exists|j: int| 0 <= j <= r.len() && q == #[trigger] r.skip(j) + r.take(j)
}

/// The state a scheduler is in after seeding `k > 0` domains of `dom`: exactly
/// `k` live slots, the ready queue a rotation of the slots `0..k`, and each of
/// these slots a ready task for the domain of the same number.
pub open spec fn seeded_inv(v: SchedView, k: nat, dom: Seq<DomainEval>) -> bool {
    &&& 0 < k <= dom.len()
    &&& k <= MAX_TASKS
    &&& v.tasks.len() == MAX_TASKS
    &&& v.task_count == k
    &&& is_rotation_of(v.queue, slot_range(k))
    &&& forall|i: int| 0 <= i < k ==> (#[trigger] v.tasks[i]).domain_index == i && v.tasks[i].state
        == TaskState::Ready
}

proof fn lemma_rotation_facts(q: Seq<u16>, k: nat, j: int)
    requires
        0 < k <= MAX_TASKS,
        0 <= j <= k,
        q == slot_range(k).skip(j) + slot_range(k).take(j),
    ensures
        q.len() == k,
        forall|t: int| 0 <= t < k ==> #[trigger] q[t] == (if t < k - j { j + t } else { t - (k - j) }) as u16,
        q.no_duplicates(),
        forall|i: int| 0 <= i < k ==> #[trigger] q.contains(i as u16),
{
    let r = slot_range(k);
    assert forall|t: int| 0 <= t < k implies #[trigger] q[t] == (if t < k - j { j + t } else { t - (k - j) }) as u16 by {
        if t < k - j {
            assert(q[t] == r.skip(j)[t]);
        } else {
            assert(q[t] == r.take(j)[t - (k - j)]);
        }
    }
    assert forall|a: int, b: int| 0 <= a < q.len() && 0 <= b < q.len() && a != b implies q[a] != q[b] by {
        let va: int = if a < k - j { j + a } else { a - (k - j) };
        let vb: int = if b < k - j { j + b } else { b - (k - j) };
        assert(q[a] == va as u16 && q[b] == vb as u16);
    }
    assert forall|i: int| 0 <= i < k implies #[trigger] q.contains(i as u16) by {
        let t: int = if i >= j { i - j } else { i + (k - j) };
        assert(q[t] == i as u16);
    }
}

/// Seeding a scheduler whose ready queue is empty puts it in the seeded state.
pub proof fn lemma_seed_gives_seeded_inv(v: SchedView, dom: Seq<DomainEval>)
    requires
        v.queue.len() == 0,
        seed_count(dom.len()) > 0,
    ensures
        seeded_inv(seeded(v, dom.len()), seed_count(dom.len()), dom),
{
    let k = seed_count(dom.len());
    let w = seeded(v, dom.len());
    assert(w.queue =~= slot_range(k).skip(0) + slot_range(k).take(0));
}

/// A quantum in the seeded state runs and keeps the scheduler in the seeded state.
pub proof fn lemma_quantum_keeps_seeded(v: SchedView, k: nat, dom: Seq<DomainEval>)
    requires
        seeded_inv(v, k, dom),
    ensures
        quantum(v, dom).1,
        seeded_inv(quantum(v, dom).0, k, dom),
{
    let r = slot_range(k);
    let j0 = choose|j: int| 0 <= j <= r.len() && v.queue == #[trigger] r.skip(j) + r.take(j);
    let j: int = if j0 == k { 0 } else { j0 };
    assert(v.queue == r.skip(j) + r.take(j)) by {
        if j0 == k {
            assert(r.skip(k as int) + r.take(k as int) =~= r.skip(0) + r.take(0));
        }
    }
    lemma_rotation_facts(v.queue, k, j);
    let q = v.queue;
    let w = quantum(v, dom).0;
    assert(q[0] == j as u16);
    assert(w.queue =~= r.skip(j + 1) + r.take(j + 1)) by {
        lemma_rotation_facts(q, k, j);
        assert forall|t: int| 0 <= t < k implies #[trigger] w.queue[t] == (r.skip(j + 1) + r.take(j + 1))[t] by {
            if t < k - 1 {
                assert(w.queue[t] == q[t + 1]);
            } else {
                assert(w.queue[t] == q[0]);
            }
        }
    }
    assert(is_rotation_of(w.queue, r));
    assert forall|i: int| 0 <= i < k implies (#[trigger] w.tasks[i]).domain_index == i && w.tasks[i].state
        == TaskState::Ready by {
        assert(v.tasks[i].domain_index == i);
    }
}

/// Counting a preemption keeps the scheduler in the seeded state.
pub proof fn lemma_preempted_keeps_seeded(v: SchedView, k: nat, dom: Seq<DomainEval>)
    requires
        seeded_inv(v, k, dom),
    ensures
        seeded_inv(preempted(v), k, dom),
{
    let w = preempted(v);
    assert forall|i: int| 0 <= i < k implies (#[trigger] w.tasks[i]).domain_index == i && w.tasks[i].state
        == TaskState::Ready by {
        assert(v.tasks[i].domain_index == i);
    }
}

/// A timer tick keeps the scheduler in the seeded state; a tick that preempts
/// runs its forced quantum.
pub proof fn lemma_tick_keeps_seeded(v: SchedView, k: nat, dom: Seq<DomainEval>)
    requires
        seeded_inv(v, k, dom),
    ensures
        seeded_inv(timer_tick(v, dom), k, dom),
        tick_fires(v) ==> quantum(preempted(v), dom).1,
{
    lemma_preempted_keeps_seeded(v, k, dom);
    if tick_fires(v) {
        lemma_quantum_keeps_seeded(preempted(v), k, dom);
    }
}

/// A preemption run keeps the scheduler in the seeded state and never stops early.
pub proof fn lemma_preempt_run_keeps_seeded(v: SchedView, k: nat, dom: Seq<DomainEval>, n: u32, every: u32, i: u32)
    requires
        seeded_inv(v, k, dom),
        i <= n,
    ensures
        seeded_inv(preempt_run(v, dom, n, every, i).0, k, dom),
        preempt_run(v, dom, n, every, i).1 == n - i,
    decreases n - i,
{
    if i < n {
        lemma_tick_keeps_seeded(v, k, dom);
        let v1 = if tick_at(i, every) { timer_tick(v, dom) } else { v };
        lemma_quantum_keeps_seeded(v1, k, dom);
        lemma_preempt_run_keeps_seeded(quantum(v1, dom).0, k, dom, n, every, (i + 1) as u32);
    }
}

/// Fairness after seeding: in the seeded state, whatever calls came before,
/// the next `k` quanta all run, and each runs one of the slots `0..k` exactly
/// once: every seeded task records its domain and counts one more tick, stays
/// ready, and no other slot changes.
pub proof fn lemma_seeded_sweep(v: SchedView, k: nat, dom: Seq<DomainEval>)
    requires
        sched_wf(v),
        seeded_inv(v, k, dom),
        v.switches + k <= u32::MAX,
        v.quanta_run + k <= u32::MAX,
        forall|s: int| 0 <= s < v.tasks.len() ==> #[trigger] v.tasks[s].ticks + k <= u32::MAX,
    ensures
        forall|j: nat| j < k ==> #[trigger] quantum(quanta(v, dom, j), dom).1,
        seeded_inv(quanta(v, dom, k), k, dom),
        forall|s: int| 0 <= s < k ==> #[trigger] quanta(v, dom, k).tasks[s] == run_task(v.tasks[s], dom),
        forall|s: int| 0 <= s < k ==> (#[trigger] quanta(v, dom, k).tasks[s]).ticks == v.tasks[s].ticks + 1,
        forall|s: int| k <= s < MAX_TASKS ==> #[trigger] quanta(v, dom, k).tasks[s] == v.tasks[s],
{
    let r = slot_range(k);
    let j0 = choose|j: int| 0 <= j <= r.len() && v.queue == #[trigger] r.skip(j) + r.take(j);
    lemma_rotation_facts(v.queue, k, j0);
    lemma_sweep_runs_each_once(v, dom, k);
    assert(v.queue.take(k as int) =~= v.queue);
    lemma_quanta_keep_seeded(v, k, dom, k);
    assert forall|s: int| k <= s < MAX_TASKS implies #[trigger] quanta(v, dom, k).tasks[s] == v.tasks[s] by {
        if v.queue.contains(s as u16) {
            let t = choose|t: int| 0 <= t < v.queue.len() && v.queue[t] == s as u16;
            assert(v.queue[t] < k);
        }
    }
    assert forall|s: int| 0 <= s < k implies (#[trigger] quanta(v, dom, k).tasks[s]).ticks == v.tasks[s].ticks + 1 by {
        assert(quanta(v, dom, k).tasks[s] == run_task(v.tasks[s], dom));
        assert(v.tasks[s].domain_index == s);
    }
}

proof fn lemma_quanta_keep_seeded(v: SchedView, k: nat, dom: Seq<DomainEval>, m: nat)
    requires
        seeded_inv(v, k, dom),
    ensures
        seeded_inv(quanta(v, dom, m), k, dom),
        forall|j: nat| j < m ==> #[trigger] quantum(quanta(v, dom, j), dom).1,
    decreases m,
{
    if m > 0 {
        lemma_quanta_keep_seeded(v, k, dom, (m - 1) as nat);
        lemma_quantum_keeps_seeded(quanta(v, dom, (m - 1) as nat), k, dom);
    }
}

/// The state after `n` timer ticks and nothing else.
pub open spec fn ticks_n(v: SchedView, dom: Seq<DomainEval>, n: nat) -> SchedView
    decreases n,
{
    if n == 0 { v } else { timer_tick(ticks_n(v, dom, (n - 1) as nat), dom) }
}

/// A budget of `q` ticks: from a fresh quantum budget, the first `q - 1` ticks
/// only count themselves, and the `q`-th counts one preemption, forces one
/// quantum and starts a new budget.
pub proof fn lemma_budget_ticks(v: SchedView, dom: Seq<DomainEval>, q: u32)
    requires
        v.ticks_in_quantum == 0,
        v.quantum_ticks == q,
        q >= 1,
    ensures
        forall|j: nat| j < q ==> #[trigger] ticks_n(v, dom, j) == (SchedView { ticks_in_quantum: j as u32, ..v }),
        ticks_n(v, dom, q as nat) == (SchedView {
            ticks_in_quantum: 0,
            ..quantum(preempted(SchedView { ticks_in_quantum: (q - 1) as u32, ..v }), dom).0
        }),
        ticks_n(v, dom, q as nat).preempt_count == sat_inc(v.preempt_count),
{
    lemma_budget_ticks_prefix(v, dom, q, (q - 1) as nat);
    let w = SchedView { ticks_in_quantum: (q - 1) as u32, ..v };
    assert(ticks_n(v, dom, (q - 1) as nat) == w);
    assert(tick_fires(w));
    assert(ticks_n(v, dom, q as nat) == timer_tick(w, dom));
}

proof fn lemma_budget_ticks_prefix(v: SchedView, dom: Seq<DomainEval>, q: u32, m: nat)
    requires
        v.ticks_in_quantum == 0,
        v.quantum_ticks == q,
        q >= 1,
        m < q,
    ensures
        forall|j: nat| j <= m ==> #[trigger] ticks_n(v, dom, j) == (SchedView { ticks_in_quantum: j as u32, ..v }),
    decreases m,
{
    if m > 0 {
        lemma_budget_ticks_prefix(v, dom, q, (m - 1) as nat);
        let w = SchedView { ticks_in_quantum: (m - 1) as u32, ..v };
        assert(ticks_n(v, dom, (m - 1) as nat) == w);
        assert(!tick_fires(w));
        assert(ticks_n(v, dom, m) =~= (SchedView { ticks_in_quantum: m as u32, ..v }));
    } else {
        assert(ticks_n(v, dom, 0) =~= (SchedView { ticks_in_quantum: 0u32, ..v }));
    }
}

/// Number of injected ticks among iterations `i..n`.
pub open spec fn ticks_between(i: u32, n: u32, every: u32) -> nat
    decreases n - i,
{
    if i >= n {
        0
    } else {
        (if tick_at(i, every) { 1nat } else { 0nat }) + ticks_between((i + 1) as u32, n, every)
    }
}

/// With a tick before every iteration, iterations `i..n` inject `n - i` ticks.
pub proof fn lemma_ticks_between_every(i: u32, n: u32)
    requires
        i <= n,
    ensures
        ticks_between(i, n, 1) == n - i,
    decreases n - i,
{
    if i < n {
        assert(tick_at(i, 1));
        lemma_ticks_between_every((i + 1) as u32, n);
    }
}

/// `a + b`, saturated at `u32::MAX`.
pub open spec fn sat_add32(a: u32, b: nat) -> u32 {
    if a + b > u32::MAX { u32::MAX } else { (a + b) as u32 }
}

/// Preemption accounting: on a non-empty ready queue with a budget of at most
/// one tick per quantum, every injected tick preempts and forces an extra
/// quantum. So iterations `i..n` all run, each counts one switch plus one for
/// every tick, the preemption counter grows by the number of ticks
/// (saturating), and the queue keeps its length. No counter overflows while
/// the switch and quanta counters have room for two quanta per iteration.
pub proof fn lemma_busy_preempt_run(v: SchedView, dom: Seq<DomainEval>, n: u32, every: u32, i: u32)
    requires
        sched_wf(v),
        v.queue.len() > 0,
        v.quantum_ticks <= 1,
        i <= n,
        v.switches + 2 * (n - i) <= u32::MAX,
        v.quanta_run + 2 * (n - i) <= u32::MAX,
        forall|s: int| 0 <= s < v.tasks.len() ==> #[trigger] v.tasks[s].ticks + 2 * (n - i) <= u32::MAX,
    ensures
        !preempt_run_overflows(v, dom, n, every, i),
        preempt_run(v, dom, n, every, i).1 == n - i,
        preempt_run(v, dom, n, every, i).0.switches == v.switches + (n - i) + ticks_between(i, n, every),
        preempt_run(v, dom, n, every, i).0.preempt_count == sat_add32(v.preempt_count, ticks_between(i, n, every)),
        preempt_run(v, dom, n, every, i).0.queue.len() == v.queue.len(),
        preempt_run(v, dom, n, every, i).0.quanta_run <= v.quanta_run + 2 * (n - i),
        forall|s: int| 0 <= s < v.tasks.len() ==> #[trigger] preempt_run(v, dom, n, every, i).0.tasks[s].ticks
            <= v.tasks[s].ticks + 2 * (n - i),
        sched_wf(preempt_run(v, dom, n, every, i).0),
    decreases n - i,
{
    if i < n {
        let v1 = if tick_at(i, every) { timer_tick(v, dom) } else { v };
        if tick_at(i, every) {
            lemma_preempted_wf(v);
            let p = preempted(v);
            assert(tick_fires(v));
            assert(source_queue(p) == v.queue);
            lemma_quantum_wf(p, dom);
            assert(v1.switches == v.switches + 1);
            assert(v1.preempt_count == sat_inc(v.preempt_count));
            assert(v1.queue.len() == v.queue.len());
        }
        assert(v1.queue.len() == v.queue.len());
        assert(sched_wf(v1));
        assert(v1.quanta_run <= v.quanta_run + 1);
        lemma_quantum_wf(v1, dom);
        let v2 = quantum(v1, dom).0;
        lemma_busy_preempt_run(v2, dom, n, every, (i + 1) as u32);
    }
}

/// A quantum on a non-empty ready queue runs the task at its head: that task
/// records its domain's score bits, residual bits and sign trit, counts a tick
/// and stays ready (a task whose domain is not in the table is done instead,
/// and counts no quantum); its slot moves to the tail and becomes the current
/// one; one switch is counted; no other task changes.
pub proof fn lemma_quantum_runs_head(v: SchedView, dom: Seq<DomainEval>)
    requires
        sched_wf(v),
        v.queue.len() > 0,
        !quantum_overflows(v, dom),
    ensures
        ({
            let slot = v.queue[0];
            let t = v.tasks[slot as int];
            let w = quantum(v, dom).0;
            &&& quantum(v, dom).1
            &&& w.current == Some(slot)
            &&& w.queue == v.queue.drop_first().push(slot)
            &&& w.switches == v.switches + 1
            &&& w.preempt_count == v.preempt_count
            &&& w.tasks.len() == v.tasks.len()
            &&& forall|s: int| 0 <= s < v.tasks.len() && s != slot ==> #[trigger] w.tasks[s] == v.tasks[s]
            &&& w.tasks[slot as int].domain_index == t.domain_index
            &&& w.tasks[slot as int].preempts == t.preempts
            &&& (t.domain_index as int) < dom.len() ==> {
                let d = dom[t.domain_index as int];
                &&& w.tasks[slot as int].state == TaskState::Ready
                &&& w.tasks[slot as int].ticks == t.ticks + 1
                &&& w.tasks[slot as int].last_s_bits == d.s_bits
                &&& w.tasks[slot as int].last_c_bits == d.c_bits
                &&& w.tasks[slot as int].last_trit == d.trit
                &&& w.quanta_run == v.quanta_run + 1
            }
            &&& (t.domain_index as int) >= dom.len() ==> {
                &&& w.tasks[slot as int].state == TaskState::Done
                &&& w.tasks[slot as int].ticks == t.ticks
                &&& w.quanta_run == v.quanta_run
            }
        }),
{
    assert(v.queue[0] < MAX_TASKS);
}

/// The refill order: the slots below `n` whose task is ready, each once, in
/// increasing slot order.
pub proof fn lemma_ready_slots_are_ready(tasks: Seq<Task>, n: int)
    requires
        0 <= n <= tasks.len(),
        n <= 0x1_0000,
    ensures
        forall|k: int| 0 <= k < ready_slots(tasks, n).len() ==> {
            &&& #[trigger] ready_slots(tasks, n)[k] < n
            &&& tasks[ready_slots(tasks, n)[k] as int].state == TaskState::Ready
        },
        forall|k: int, l: int| 0 <= k < l < ready_slots(tasks, n).len()
            ==> #[trigger] ready_slots(tasks, n)[k] < #[trigger] ready_slots(tasks, n)[l],
        forall|s: int| 0 <= s < n && #[trigger] tasks[s].state == TaskState::Ready
            ==> ready_slots(tasks, n).contains(s as u16),
    decreases n,
{
    if n > 0 {
        lemma_ready_slots_are_ready(tasks, n - 1);
        let r = ready_slots(tasks, n - 1);
        let q = ready_slots(tasks, n);
        assert forall|s: int| 0 <= s < n && #[trigger] tasks[s].state == TaskState::Ready
            implies q.contains(s as u16) by {
            if s < n - 1 {
                assert(r.contains(s as u16));
                let k = choose|k: int| 0 <= k < r.len() && r[k] == s as u16;
                assert(q[k] == r[k]);
            } else {
                assert(q[q.len() - 1] == (n - 1) as u16);
            }
        }
    }
}

/// With an empty ready queue a quantum refills it from the ready tasks and
/// runs the lowest-numbered one; it runs nothing exactly when no task below
/// the task count is ready.
pub proof fn lemma_quantum_refill(v: SchedView, dom: Seq<DomainEval>)
    requires
        sched_wf(v),
        v.queue.len() == 0,
    ensures
        quantum(v, dom).1 <==> exists|s: int| 0 <= s < v.task_count && #[trigger] v.tasks[s].state
            == TaskState::Ready,
        quantum(v, dom).1 ==> {
            let slot = quantum(v, dom).0.current.unwrap();
            &&& quantum(v, dom).0.current is Some
            &&& 0 <= slot < v.task_count
            &&& v.tasks[slot as int].state == TaskState::Ready
            &&& forall|s: int| 0 <= s < slot ==> #[trigger] v.tasks[s].state != TaskState::Ready
        },
{
    lemma_ready_slots_are_ready(v.tasks, v.task_count);
    let q = ready_slots(v.tasks, v.task_count);
    if exists|s: int| 0 <= s < v.task_count && #[trigger] v.tasks[s].state == TaskState::Ready {
        let s = choose|s: int| 0 <= s < v.task_count && #[trigger] v.tasks[s].state == TaskState::Ready;
        assert(q.contains(s as u16));
    }
    if q.len() > 0 {
        let slot = q[0];
        assert forall|s: int| 0 <= s < slot implies #[trigger] v.tasks[s].state != TaskState::Ready by {
            if v.tasks[s].state == TaskState::Ready {
                assert(q.contains(s as u16));
                let k = choose|k: int| 0 <= k < q.len() && q[k] == s as u16;
                if k > 0 {
                    assert(q[0] < q[k]);
                }
            }
        }
    }
}

/// Every quantum that runs starts a fresh tick budget: whatever ticks the
/// previous quantum had used, the next `quantum_ticks - 1` timer ticks after it
/// only count themselves, preempting nothing and forcing no switch.
pub proof fn lemma_quantum_fresh_budget(v: SchedView, dom: Seq<DomainEval>, j: nat)
    requires
        quantum(v, dom).1,
        j < v.quantum_ticks,
    ensures
        ({
            let w = quantum(v, dom).0;
            let t = ticks_n(w, dom, j);
            &&& w.ticks_in_quantum == 0
            &&& t.ticks_in_quantum == j
            &&& t.preempt_count == v.preempt_count
            &&& t.switches == w.switches
            &&& t.queue == w.queue
            &&& t.tasks == w.tasks
        }),
{
    let w = quantum(v, dom).0;
    lemma_budget_ticks(w, dom, v.quantum_ticks);
    assert(ticks_n(w, dom, j) == (SchedView { ticks_in_quantum: j as u32, ..w }));
}

/// A timer tick that does not use up the budget only counts itself; one that
/// does counts one preemption on the scheduler and one on the task that was
/// running (when it names a live slot), forces a switch to the next task
/// whenever one can run, and starts a new budget.
pub proof fn lemma_tick_preempts(v: SchedView, dom: Seq<DomainEval>)
    requires
        sched_wf(v),
        !tick_overflows(v, dom),
    ensures
        !tick_fires(v) ==> timer_tick(v, dom) == (SchedView {
            ticks_in_quantum: sat_inc(v.ticks_in_quantum),
            ..v
        }),
        tick_fires(v) ==> {
            let w = timer_tick(v, dom);
            &&& w.ticks_in_quantum == 0
            &&& w.preempt_count == sat_inc(v.preempt_count)
            &&& w.quantum_ticks == v.quantum_ticks
            &&& can_run(v) ==> w.switches == v.switches + 1
            &&& !can_run(v) ==> w.switches == v.switches
            &&& (v.current is Some && (v.current.unwrap() as int) < v.task_count)
                ==> w.tasks[v.current.unwrap() as int].preempts
                == sat_inc(v.tasks[v.current.unwrap() as int].preempts)
        },
{
    if tick_fires(v) {
        let p = preempted(v);
        lemma_preempted_wf(v);
        lemma_quantum_wf(p, dom);
        assert(source_queue(p) == source_queue(v)) by {
            if v.queue.len() == 0 {
                assert forall|i: int| 0 <= i < v.tasks.len() implies #[trigger] p.tasks[i].state
                    == v.tasks[i].state by {}
                lemma_ready_slots_same_states(v.tasks, p.tasks, v.task_count);
            }
        }
        if let Some(slot) = v.current {
            if (slot as int) < v.task_count {
                let q = source_queue(p);
                assert(p.tasks[slot as int].preempts == sat_inc(v.tasks[slot as int].preempts));
                lemma_ready_slots_bounds(p.tasks, p.task_count);
                if q.len() > 0 {
                    assert(q[0] < MAX_TASKS);
                    let t = p.tasks[q[0] as int];
                    assert(run_task(t, dom).preempts == t.preempts);
                    let w = quantum(p, dom).0;
                    assert(w.tasks == p.tasks.update(q[0] as int, run_task(t, dom)));
                    assert(w.tasks[slot as int].preempts == p.tasks[slot as int].preempts);
                }
            }
        }
    }
}

/// With a budget of at least two ticks per quantum and at most one tick
/// injected per iteration, a preemption run on a non-empty ready queue never
/// preempts: each quantum starts a fresh budget, so no injected tick uses it
/// up. Iterations `i..n` all run, each counts exactly one switch, the
/// preemption counter stays where it was, and nothing overflows while the
/// counters have room for one quantum per iteration.
pub proof fn lemma_budget_run_never_preempts(v: SchedView, dom: Seq<DomainEval>, n: u32, every: u32, i: u32)
    requires
        sched_wf(v),
        v.queue.len() > 0,
        v.quantum_ticks >= 2,
        v.ticks_in_quantum + 1 < v.quantum_ticks,
        i <= n,
        v.switches + (n - i) <= u32::MAX,
        v.quanta_run + (n - i) <= u32::MAX,
        forall|s: int| 0 <= s < v.tasks.len() ==> #[trigger] v.tasks[s].ticks + (n - i) <= u32::MAX,
    ensures
        !preempt_run_overflows(v, dom, n, every, i),
        preempt_run(v, dom, n, every, i).1 == n - i,
        preempt_run(v, dom, n, every, i).0.preempt_count == v.preempt_count,
        preempt_run(v, dom, n, every, i).0.switches == v.switches + (n - i),
        preempt_run(v, dom, n, every, i).0.queue.len() == v.queue.len(),
        sched_wf(preempt_run(v, dom, n, every, i).0),
    decreases n - i,
{
    if i < n {
        let v1 = if tick_at(i, every) { timer_tick(v, dom) } else { v };
        if tick_at(i, every) {
            assert(!tick_fires(v));
            assert(v1 == (SchedView { ticks_in_quantum: (v.ticks_in_quantum + 1) as u32, ..v }));
        }
        assert(sched_wf(v1));
        assert(source_queue(v1) == v.queue);
        assert(!quantum_overflows(v1, dom));
        lemma_quantum_wf(v1, dom);
        let v2 = quantum(v1, dom).0;
        assert(v2.ticks_in_quantum == 0);
        assert(v2.switches == v.switches + 1);
        assert(v2.quanta_run <= v.quanta_run + 1);
        lemma_budget_run_never_preempts(v2, dom, n, every, (i + 1) as u32);
    }
}

impl Scheduler {
    /// Well-formedness of the scheduler's fields.
    pub closed spec fn wf(&self) -> bool {
        &&& self.ready_head < READY_CAP
        &&& self.ready_len <= READY_CAP
        &&& self.ready_tail == (self.ready_head + self.ready_len) % (READY_CAP as int)
        &&& sched_wf(self@)
    }

    /// The view of a well-formed scheduler is well-formed.
    pub proof fn lemma_wf_view(&self)
        requires
            self.wf(),
        ensures
            sched_wf(self@),
    {
    }

    /// An empty scheduler: all slots free, empty queue, one tick per quantum.
    pub fn new() -> (s: Scheduler)
        ensures
            s.wf(),
            s@.tasks == Seq::new(MAX_TASKS as nat, |i: int| free_task()),
            s@.task_count == 0,
            s@.queue.len() == 0,
            s@.current.is_none(),
            s@.switches == 0,
            s@.quanta_run == 0,
            s@.preempt_count == 0,
            s@.quantum_ticks == 1,
            s@.ticks_in_quantum == 0,
    {
        let s = Scheduler {
            tasks: [Task::free(); 640],
            task_count: 0,
            ready: [0u16; 640],
            ready_head: 0,
            ready_tail: 0,
            ready_len: 0,
            current: None,
            switches: 0,
            quanta_run: 0,
            preempt_count: 0,
            quantum_ticks: 1,
            ticks_in_quantum: 0,
        };
        assert(s@.tasks =~= Seq::new(MAX_TASKS as nat, |i: int| free_task()));
        s
    }

    fn enqueue(&mut self, task_slot: u16) -> (ok: bool)
        requires
            old(self).wf(),
            task_slot < MAX_TASKS,
        ensures
            final(self).wf(),
            ok == (old(self)@.queue.len() < READY_CAP),
            final(self)@ == (SchedView {
                queue: if ok { old(self)@.queue.push(task_slot) } else { old(self)@.queue },
                ..old(self)@
            }),
    {
        if self.ready_len >= READY_CAP {
            return false;
        }
        let ghost q0 = self@.queue;
        self.ready[self.ready_tail] = task_slot;
        self.ready_tail = (self.ready_tail + 1) % READY_CAP;
        self.ready_len = self.ready_len + 1;
        assert(self@.queue =~= q0.push(task_slot));
        true
    }

    fn dequeue(&mut self) -> (r: Option<u16>)
        requires
            old(self).wf(),
        ensures
            final(self).wf(),
            r == (if old(self)@.queue.len() > 0 { Some(old(self)@.queue[0]) } else { None }),
            final(self)@ == (SchedView {
                queue: if old(self)@.queue.len() > 0 { old(self)@.queue.drop_first() } else { old(self)@.queue },
                ..old(self)@
            }),
    {
        if self.ready_len == 0 {
            return None;
        }
        let ghost q0 = self@.queue;
        let t = self.ready[self.ready_head];
        self.ready_head = (self.ready_head + 1) % READY_CAP;
        self.ready_len = self.ready_len - 1;
        assert(self@.queue =~= q0.drop_first());
        Some(t)
    }

    /// Enqueues every domain of the table (up to the slot and registry limits)
    /// as a ready task; returns how many were seeded.
    pub fn seed_all_domains(&mut self, domains: &[DomainEval]) -> (n: usize)
        requires
            old(self).wf(),
        ensures
            final(self).wf(),
            n == seed_count(domains@.len()),
            final(self)@ == seeded(old(self)@, domains@.len()),
    {
        let len = domains.len();
        let a: usize = if len <= MAX_TASKS { len } else { MAX_TASKS };
        let n: usize = if a <= DOMAIN_COUNT { a } else { DOMAIN_COUNT };
        let ghost v0 = self@;
        let ghost room: nat = (READY_CAP - v0.queue.len()) as nat;
        let mut i: usize = 0;
        while i < n
            invariant
                self.wf(),
                n == seed_count(domains@.len()),
                n <= DOMAIN_COUNT,
                0 <= i <= n,
                room == READY_CAP - v0.queue.len(),
                self@ == (SchedView {
                    tasks: Seq::new(MAX_TASKS as nat, |j: int| if j < i { seeded_task(j) } else { v0.tasks[j] }),
                    queue: v0.queue + Seq::new(if i <= room { i as nat } else { room }, |j: int| j as u16),
                    ..v0
                }),
            decreases n - i,
        {
            self.tasks[i] = Task {
                state: TaskState::Ready,
                domain_index: i as u16,
                ticks: 0,
                preempts: 0,
                last_s_bits: 0,
                last_trit: 0,
                last_c_bits: 0,
            };
            let ghost q1 = self@.queue;
            let _ = self.enqueue(i as u16);
            proof {
                assert(self@.tasks =~= Seq::new(MAX_TASKS as nat, |j: int| if j < i + 1 { seeded_task(j) } else { v0.tasks[j] }));
                let k1: nat = if i + 1 <= room { (i + 1) as nat } else { room };
                assert(self@.queue =~= v0.queue + Seq::new(k1, |j: int| j as u16));
            }
            i = i + 1;
        }
        self.task_count = n;
        self.current = None;
        self.ticks_in_quantum = 0;
        n
    }

    fn run_slot(&mut self, slot: u16, domains: &[DomainEval])
        requires
            old(self).wf(),
            slot < MAX_TASKS,
            has_domain(old(self)@.tasks[slot as int], domains@) ==> old(self)@.quanta_run < u32::MAX
                && old(self)@.tasks[slot as int].ticks < u32::MAX,
        ensures
            final(self).wf(),
            final(self)@ == (SchedView {
                tasks: old(self)@.tasks.update(slot as int, run_task(old(self)@.tasks[slot as int], domains@)),
                quanta_run: if has_domain(old(self)@.tasks[slot as int], domains@) {
                    (old(self)@.quanta_run + 1) as u32
                } else {
                    old(self)@.quanta_run
                },
                ..old(self)@
            }),
    {
        let s = slot as usize;
        let mut t = self.tasks[s];
        t.state = TaskState::Running;
        let di = t.domain_index as usize;
        if di >= domains.len() {
            t.state = TaskState::Done;
            self.tasks[s] = t;
            return;
        }
        let d = domains[di];
        t.last_s_bits = d.s_bits;
        t.last_c_bits = d.c_bits;
        t.last_trit = d.trit;
        t.ticks = t.ticks + 1;
        t.state = TaskState::Ready;
        self.tasks[s] = t;
        self.quanta_run = self.quanta_run + 1;
    }

    /// Runs one quantum (see `quantum`): dequeue, run, requeue. Returns `false`
    /// when no task can run.
    pub fn run_one_quantum(&mut self, domains: &[DomainEval]) -> (ok: bool)
        requires
            old(self).wf(),
            !quantum_overflows(old(self)@, domains@),
        ensures
            final(self).wf(),
            final(self)@ == quantum(old(self)@, domains@).0,
            ok == quantum(old(self)@, domains@).1,
    {
        let ghost v0 = self@;
        let slot = match self.dequeue() {
            Some(s) => s,
            None => {
                let mut i: usize = 0;
                let mut any = false;
                while i < self.task_count
                    invariant
                        self.wf(),
                        v0.queue.len() == 0,
                        0 <= i <= self.task_count,
                        self.task_count <= MAX_TASKS,
                        self@ == (SchedView { queue: ready_slots(v0.tasks, i as int), ..v0 }),
                        any == (ready_slots(v0.tasks, i as int).len() > 0),
                        ready_slots(v0.tasks, i as int).len() <= i,
                        forall|k: int| 0 <= k < ready_slots(v0.tasks, i as int).len()
                            ==> #[trigger] ready_slots(v0.tasks, i as int)[k] < i,
                    decreases self.task_count - i,
                {
                    if self.tasks[i].state == TaskState::Ready {
                        let _ = self.enqueue(i as u16);
                        any = true;
                    }
                    proof {
                        assert(self@.queue =~= ready_slots(v0.tasks, i + 1));
                    }
                    i = i + 1;
                }
                if !any {
                    return false;
                }
                match self.dequeue() {
                    Some(s) => s,
                    None => return false,
                }
            },
        };
        self.current = Some(slot);
        self.run_slot(slot, domains);
        let _ = self.enqueue(slot);
        self.switches = self.switches + 1;
        self.ticks_in_quantum = 0;
        true
    }

    /// Timer tick (see `timer_tick`): once the quantum budget is used up,
    /// count a preemption and force a quantum.
    pub fn on_timer_tick(&mut self, domains: &[DomainEval])
        requires
            old(self).wf(),
            !tick_overflows(old(self)@, domains@),
        ensures
            final(self).wf(),
            final(self)@ == timer_tick(old(self)@, domains@),
    {
        self.ticks_in_quantum = self.ticks_in_quantum.saturating_add(1);
        if self.ticks_in_quantum >= self.quantum_ticks {
            self.preempt_count = self.preempt_count.saturating_add(1);
            if let Some(slot) = self.current {
                if (slot as usize) < self.task_count {
                    let s = slot as usize;
                    let mut t = self.tasks[s];
                    t.preempts = t.preempts.saturating_add(1);
                    self.tasks[s] = t;
                }
            }
            let _ = self.run_one_quantum(domains);
            self.ticks_in_quantum = 0;
        }
    }

    /// Runs up to `n` quanta, injecting a timer tick before every
    /// `timer_every`-th one (none when `timer_every` is 0); stops early when no
    /// task can run. Returns the number of quanta run (see `preempt_run`).
    pub fn run_with_preemption(&mut self, n: u32, timer_every: u32, domains: &[DomainEval]) -> (ran: u32)
        requires
            old(self).wf(),
            !preempt_run_overflows(old(self)@, domains@, n, timer_every, 0),
        ensures
            final(self).wf(),
            final(self)@ == preempt_run(old(self)@, domains@, n, timer_every, 0).0,
            ran == preempt_run(old(self)@, domains@, n, timer_every, 0).1,
    {
        let ghost v0 = self@;
        let mut ran: u32 = 0;
        let mut i: u32 = 0;
        while i < n
            invariant_except_break
                i <= n,
                ran == i,
                preempt_run(self@, domains@, n, timer_every, i).0 == preempt_run(v0, domains@, n, timer_every, 0).0,
                preempt_run(self@, domains@, n, timer_every, i).1 + ran == preempt_run(v0, domains@, n, timer_every, 0).1,
                !preempt_run_overflows(self@, domains@, n, timer_every, i),
            invariant
                self.wf(),
            ensures
                self@ == preempt_run(v0, domains@, n, timer_every, 0).0,
                ran == preempt_run(v0, domains@, n, timer_every, 0).1,
            decreases n - i,
        {
            if timer_every > 0 && i % timer_every == 0 {
                self.on_timer_tick(domains);
            }
            if self.run_one_quantum(domains) {
                ran = ran + 1;
            } else {
                break;
            }
            i = i + 1;
        }
        ran
    }
}

/// Quanta the boot self-test asks for: two sweeps of the seeded tasks, at least 64.
pub open spec fn boot_target(n: nat) -> nat {
    if 2 * n > 64 { 2 * n } else { 64 }
}

/// Boot self-test: seed every domain, then run two sweeps (at least 64
/// quanta) with a timer tick and a one-tick budget before every quantum.
/// Returns `(ok, tasks, quanta run, switches, preemptions)`.
pub fn boot_sched_selftest(domains: &[DomainEval]) -> (r: (bool, u32, u32, u32, u32))
    ensures
        ({
            let n = seed_count(domains@.len());
            let t = boot_target(n);
            &&& n > 0 ==> r == (n == DOMAIN_COUNT, n as u32, t as u32, (2 * t) as u32, t as u32)
            &&& n == 0 ==> r == (false, 0u32, 0u32, 0u32, 1u32)
        }),
{
    let mut sched = Scheduler::new();
    sched.quantum_ticks = 1;
    let n_slots = sched.seed_all_domains(domains);
    let n = n_slots as u32;
    let doubled = n * 2;
    let target: u32 = if doubled > 64 { doubled } else { 64 };
    proof {
        let v = sched@;
        assert(v.task_count == n);
        if n > 0 {
            assert(v.queue.len() == n);
            lemma_busy_preempt_run(v, domains@, target, 1, 0);
            lemma_ticks_between_every(0, target);
        } else {
            assert(ready_slots(v.tasks, 0).len() == 0);
            assert(!can_run(v));
            assert(tick_at(0, 1));
            assert(tick_fires(v));
            let p = preempted(v);
            assert(!can_run(p));
            let v1 = timer_tick(v, domains@);
            assert(v1.queue.len() == 0 && v1.task_count == 0);
            assert(!can_run(v1));
        }
    }
    let ran = sched.run_with_preemption(target, 1, domains);
    let ok = n_slots == (if DOMAIN_COUNT < MAX_TASKS { DOMAIN_COUNT } else { MAX_TASKS }) && n >= 500
        && ran >= n && sched.preempt_count > 0 && sched.switches >= n;
    (ok, n, ran, sched.switches, sched.preempt_count)
}

} // verus!
