use reality_os::domain::{DomainEval, DomainKind};
use reality_os::sched::{boot_sched_selftest, Scheduler, Task, TaskState};

fn table(n: usize) -> Vec<DomainEval> {
    (0..n)
        .map(|i| DomainEval {
            kind: DomainKind::Core,
            s_bits: 1000 + i as u64,
            c_bits: 2000 + i as u64,
            trit: if i % 2 == 0 { 1 } else { -1 },
            s_micro: i as i32,
            residual_finite: true,
        })
        .collect()
}

#[test]
fn free_task_is_zeroed() {
    let t = Task::free();
    assert!(t.state == TaskState::Free);
    assert_eq!((t.domain_index, t.ticks, t.preempts, t.last_s_bits, t.last_trit, t.last_c_bits), (0, 0, 0, 0, 0, 0));
}

#[test]
fn seeding_readies_one_task_per_domain() {
    let d = table(3);
    let mut s = Scheduler::new();
    assert_eq!(s.seed_all_domains(&d), 3);
    assert_eq!(s.task_count, 3);
    for i in 0..3 {
        assert!(s.tasks[i].state == TaskState::Ready);
        assert_eq!(s.tasks[i].domain_index, i as u16);
    }
    assert!(s.tasks[3].state == TaskState::Free);
    assert_eq!(s.current, None);
}

#[test]
fn seeding_caps_at_the_registry_size() {
    let d = table(600);
    let mut s = Scheduler::new();
    assert_eq!(s.seed_all_domains(&d), 530);
    assert!(s.tasks[529].state == TaskState::Ready);
    assert!(s.tasks[530].state == TaskState::Free);
}

#[test]
fn quanta_go_round_robin() {
    let d = table(3);
    let mut s = Scheduler::new();
    s.seed_all_domains(&d);
    let mut order = Vec::new();
    for _ in 0..7 {
        assert!(s.run_one_quantum(&d));
        order.push(s.current.unwrap());
    }
    assert_eq!(order, vec![0, 1, 2, 0, 1, 2, 0]);
    assert_eq!(s.switches, 7);
    assert_eq!(s.quanta_run, 7);
    assert_eq!(s.tasks[0].ticks, 3);
    assert_eq!(s.tasks[1].ticks, 2);
    assert_eq!(s.tasks[1].last_s_bits, 1001);
    assert_eq!(s.tasks[1].last_c_bits, 2001);
    assert_eq!(s.tasks[1].last_trit, -1);
}

#[test]
fn task_without_domain_is_done_but_still_cycles() {
    let d = table(2);
    let mut s = Scheduler::new();
    s.seed_all_domains(&d);
    let shorter = table(1);
    assert!(s.run_one_quantum(&shorter));
    assert!(s.run_one_quantum(&shorter));
    assert!(s.tasks[1].state == TaskState::Done);
    assert_eq!(s.quanta_run, 1);
    assert_eq!(s.switches, 2);
    assert!(s.run_one_quantum(&shorter));
    assert_eq!(s.current, Some(0));
}

#[test]
fn empty_scheduler_cannot_run() {
    let mut s = Scheduler::new();
    assert!(!s.run_one_quantum(&table(3)));
    assert_eq!(s.switches, 0);
    assert_eq!(s.current, None);
}

#[test]
fn empty_queue_is_refilled_from_ready_tasks() {
    let d = table(4);
    let mut s = Scheduler::new();
    s.task_count = 4;
    s.tasks[1].state = TaskState::Ready;
    s.tasks[1].domain_index = 1;
    s.tasks[3].state = TaskState::Ready;
    s.tasks[3].domain_index = 3;
    assert!(s.run_one_quantum(&d));
    assert_eq!(s.current, Some(1));
    assert!(s.run_one_quantum(&d));
    assert_eq!(s.current, Some(3));
    assert!(s.run_one_quantum(&d));
    assert_eq!(s.current, Some(1));
}

#[test]
fn timer_ticks_preempt_after_the_budget() {
    let d = table(2);
    let mut s = Scheduler::new();
    s.seed_all_domains(&d);
    s.quantum_ticks = 2;
    assert!(s.run_one_quantum(&d));
    s.on_timer_tick(&d);
    assert_eq!(s.preempt_count, 0);
    assert_eq!(s.switches, 1);
    s.on_timer_tick(&d);
    assert_eq!(s.preempt_count, 1);
    assert_eq!(s.tasks[0].preempts, 1);
    assert_eq!(s.switches, 2);
    assert_eq!(s.current, Some(1));
}

#[test]
fn preemption_run_counts() {
    let d = table(5);
    let mut s = Scheduler::new();
    s.seed_all_domains(&d);
    assert_eq!(s.run_with_preemption(10, 3, &d), 10);
    // ticks before iterations 0, 3, 6, 9 each force an extra quantum
    assert_eq!(s.preempt_count, 4);
    assert_eq!(s.switches, 14);
    assert_eq!(s.quanta_run, 14);
}

#[test]
fn preemption_run_without_ticks() {
    let d = table(5);
    let mut s = Scheduler::new();
    s.seed_all_domains(&d);
    assert_eq!(s.run_with_preemption(6, 0, &d), 6);
    assert_eq!(s.preempt_count, 0);
    assert_eq!(s.switches, 6);
}

#[test]
fn preemption_run_on_empty_scheduler_stops_at_once() {
    let mut s = Scheduler::new();
    assert_eq!(s.run_with_preemption(10, 1, &table(0)), 0);
    assert_eq!(s.preempt_count, 1);
    assert_eq!(s.switches, 0);
}

#[test]
fn boot_selftest_over_full_table() {
    assert_eq!(boot_sched_selftest(&table(530)), (true, 530, 1060, 2120, 1060));
    assert_eq!(boot_sched_selftest(&table(640)), (true, 530, 1060, 2120, 1060));
}

#[test]
fn boot_selftest_over_short_tables() {
    assert_eq!(boot_sched_selftest(&table(10)), (false, 10, 64, 128, 64));
    assert_eq!(boot_sched_selftest(&table(0)), (false, 0, 0, 0, 1));
}

#[test]
fn a_budget_of_q_ticks_preempts_once() {
    let d = table(4);
    let mut s = Scheduler::new();
    s.seed_all_domains(&d);
    s.quantum_ticks = 3;
    s.on_timer_tick(&d);
    s.on_timer_tick(&d);
    assert_eq!((s.preempt_count, s.switches), (0, 0));
    s.on_timer_tick(&d);
    assert_eq!((s.preempt_count, s.switches), (1, 1));
    assert_eq!(s.current, Some(0));
}

#[test]
fn after_seeding_every_sweep_runs_each_task_once() {
    let d = table(4);
    let mut s = Scheduler::new();
    s.seed_all_domains(&d);
    s.run_with_preemption(3, 2, &d);
    let before: Vec<u32> = (0..4).map(|i| s.tasks[i].ticks).collect();
    for _ in 0..4 {
        assert!(s.run_one_quantum(&d));
    }
    for i in 0..4 {
        assert_eq!(s.tasks[i].ticks, before[i] + 1);
        assert!(s.tasks[i].state == TaskState::Ready);
    }
}
