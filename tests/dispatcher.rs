use pico_dispatch::clock::Instant;
use pico_dispatch::dispatch::{Dispatcher, Request, SpawnError};
use pico_dispatch::table::{ConfigError, TaskDef, TaskTable, Trigger};

fn task(priority: u8, trigger: Trigger) -> TaskDef {
    TaskDef { priority, trigger }
}

/// Logger (1), SensorPoll (2), AlarmCheck (3), all sharing one resource.
fn monitor() -> Dispatcher {
    let tasks = vec![
        task(1, Trigger::Software),
        task(2, Trigger::Interrupt(7)),
        task(3, Trigger::Software),
    ];
    let table = TaskTable::new(tasks, vec![vec![0, 1, 2]]).unwrap();
    Dispatcher::new(table)
}

#[test]
fn ceiling_is_highest_accessor_priority() {
    let tasks = vec![task(1, Trigger::Software), task(4, Trigger::Software), task(2, Trigger::Software)];
    let table = TaskTable::new(tasks, vec![vec![0, 2], vec![2, 1, 0], vec![]]).unwrap();
    assert_eq!(table.num_resources(), 3);
    assert_eq!(table.ceiling_value(0), 2);
    assert_eq!(table.ceiling_value(1), 4);
    assert_eq!(table.ceiling_value(2), 0);
}

#[test]
fn registration_errors() {
    let zero = TaskTable::new(vec![task(0, Trigger::Software)], vec![]);
    assert_eq!(zero.err(), Some(ConfigError::ZeroPriority));
    let dup = TaskTable::new(
        vec![task(1, Trigger::Interrupt(3)), task(2, Trigger::Interrupt(3))],
        vec![],
    );
    assert_eq!(dup.err(), Some(ConfigError::DuplicateVector));
    let unknown = TaskTable::new(vec![task(1, Trigger::Software)], vec![vec![0, 1]]);
    assert_eq!(unknown.err(), Some(ConfigError::UnknownTask));
    let two_software = TaskTable::new(
        vec![task(1, Trigger::Software), task(1, Trigger::Software)],
        vec![vec![1]],
    );
    assert!(two_software.is_ok());
}

#[test]
fn ceiling_holds_off_higher_priority_task() {
    let mut d = monitor();
    assert_eq!(d.spawn(1, 10), Ok(()));
    assert_eq!(d.dispatch(), Some(Request { task: 1, payload: 10 }));
    d.lock(0);
    assert_eq!(d.system_ceiling(), 3);
    assert_eq!(d.spawn(2, 20), Ok(()));
    assert_eq!(d.dispatch(), None);
    assert_eq!(d.running_task(), Some(1));
    assert_eq!(d.unlock(), 0);
    assert_eq!(d.system_ceiling(), 0);
    assert_eq!(d.dispatch(), Some(Request { task: 2, payload: 20 }));
    assert_eq!(d.running_task(), Some(2));
    assert_eq!(d.complete(), 2);
    assert_eq!(d.running_task(), Some(1));
}

#[test]
fn idle_only_when_nothing_pending_and_interrupt_wakes() {
    let mut d = monitor();
    assert!(d.is_idle());
    let now = Instant { ticks: 500 };
    assert_eq!(d.interrupt(7), Some(1));
    assert!(!d.is_idle());
    assert_eq!(d.dispatch(), Some(Request { task: 1, payload: 0 }));
    let woke = Instant { ticks: 500 };
    assert!(woke.duration_since(now) < 1);
    assert!(!d.is_idle());
    assert_eq!(d.complete(), 1);
    assert!(d.is_idle());
    assert_eq!(d.interrupt(9), None);
    assert!(d.is_idle());
}

#[test]
fn equal_priorities_run_in_arrival_order() {
    let tasks = vec![
        task(3, Trigger::Software),
        task(1, Trigger::Software),
        task(1, Trigger::Software),
    ];
    let mut d = Dispatcher::new(TaskTable::new(tasks, vec![]).unwrap());
    d.spawn(0, 0).unwrap();
    assert_eq!(d.dispatch(), Some(Request { task: 0, payload: 0 }));
    d.spawn(1, 1).unwrap();
    d.spawn(2, 2).unwrap();
    assert_eq!(d.dispatch(), None);
    assert_eq!(d.complete(), 0);
    assert_eq!(d.dispatch(), Some(Request { task: 1, payload: 1 }));
    assert_eq!(d.dispatch(), None);
    assert_eq!(d.complete(), 1);
    assert_eq!(d.dispatch(), Some(Request { task: 2, payload: 2 }));
    assert_eq!(d.complete(), 2);
    assert!(d.is_idle());
}

#[test]
fn higher_priority_pending_starts_first() {
    let mut d = monitor();
    d.spawn(0, 0).unwrap();
    d.spawn(1, 0).unwrap();
    d.spawn(2, 0).unwrap();
    assert_eq!(d.dispatch().map(|r| r.task), Some(2));
    assert_eq!(d.dispatch(), None);
    d.complete();
    assert_eq!(d.dispatch().map(|r| r.task), Some(1));
    d.complete();
    assert_eq!(d.dispatch().map(|r| r.task), Some(0));
}

#[test]
fn preemption_by_higher_priority() {
    let mut d = monitor();
    d.spawn(0, 0).unwrap();
    assert_eq!(d.dispatch().map(|r| r.task), Some(0));
    d.spawn(1, 0).unwrap();
    assert_eq!(d.dispatch().map(|r| r.task), Some(1));
    assert_eq!(d.running_task(), Some(1));
    assert_eq!(d.complete(), 1);
    assert_eq!(d.running_task(), Some(0));
}

#[test]
fn second_spawn_is_queue_full() {
    let mut d = monitor();
    assert_eq!(d.spawn(0, 1), Ok(()));
    assert_eq!(d.spawn(0, 2), Err(SpawnError::QueueFull));
    assert_eq!(d.pending_len(), 1);
    assert_eq!(d.dispatch(), Some(Request { task: 0, payload: 1 }));
    assert_eq!(d.spawn(0, 3), Ok(()));
    assert_eq!(d.pending_len(), 1);
}

#[test]
fn cancel_withdraws_pending_request() {
    let mut d = monitor();
    d.spawn(0, 5).unwrap();
    d.spawn(2, 6).unwrap();
    assert_eq!(d.cancel(2), Some(6));
    assert_eq!(d.cancel(2), None);
    assert!(!d.is_pending(2));
    assert!(d.is_pending(0));
    assert_eq!(d.dispatch(), Some(Request { task: 0, payload: 5 }));
}

#[test]
fn interrupt_already_pending_is_absorbed() {
    let mut d = monitor();
    assert_eq!(d.interrupt(7), Some(1));
    assert_eq!(d.interrupt(7), Some(1));
    assert_eq!(d.pending_len(), 1);
}

#[test]
fn complete_releases_open_critical_sections() {
    let tasks = vec![task(1, Trigger::Software), task(2, Trigger::Software), task(5, Trigger::Software)];
    let table = TaskTable::new(tasks, vec![vec![0, 1], vec![0]]).unwrap();
    let mut d = Dispatcher::new(table);
    d.spawn(0, 0).unwrap();
    d.dispatch();
    d.lock(1);
    assert_eq!(d.system_ceiling(), 1);
    d.lock(0);
    assert_eq!(d.system_ceiling(), 2);
    d.spawn(2, 0).unwrap();
    assert_eq!(d.dispatch().map(|r| r.task), Some(2));
    assert_eq!(d.complete(), 2);
    assert_eq!(d.system_ceiling(), 2);
    assert_eq!(d.complete(), 0);
    assert_eq!(d.system_ceiling(), 0);
    assert!(d.is_idle());
}

#[test]
fn nested_locks_restore_in_order() {
    let tasks = vec![task(1, Trigger::Software), task(3, Trigger::Software)];
    let table = TaskTable::new(tasks, vec![vec![0, 1], vec![0]]).unwrap();
    let mut d = Dispatcher::new(table);
    d.spawn(0, 0).unwrap();
    d.dispatch();
    d.lock(1);
    d.lock(0);
    assert_eq!(d.system_ceiling(), 3);
    assert_eq!(d.unlock(), 0);
    assert_eq!(d.system_ceiling(), 1);
    assert_eq!(d.unlock(), 1);
    assert_eq!(d.system_ceiling(), 0);
}

#[test]
fn duration_across_wrap() {
    let t0 = Instant { ticks: 0xFFFF_FF00 };
    let wrapped = Instant { ticks: ((0xFFFF_FF00u64 + (1u64 << 32) + 0x200) % (1u64 << 32)) as u32 };
    assert_eq!(wrapped.ticks, 0x100);
    assert_eq!(wrapped.duration_since(t0), 0x200);
    assert_eq!(Instant { ticks: 10 }.duration_since(Instant { ticks: 3 }), 7);
    assert_eq!(t0.after(0x200), wrapped);
    assert_eq!(Instant { ticks: 1 }.after(2), Instant { ticks: 3 });
}

#[test]
fn reached_checks_elapsed_ticks() {
    let start = Instant { ticks: u32::MAX - 1 };
    assert!(!Instant { ticks: 2 }.reached(start, 5));
    assert!(Instant { ticks: 3 }.reached(start, 5));
    assert!(Instant { ticks: 4 }.reached(start, 5));
}

#[test]
fn deferred_spawn_fires_when_due() {
    let mut d = monitor();
    let start = Instant { ticks: 100 };
    assert_eq!(d.spawn_after(0, 9, start, 10), Ok(()));
    assert_eq!(d.spawn_after(0, 8, start, 1), Err(SpawnError::QueueFull));
    d.poll_timers(Instant { ticks: 109 });
    assert!(!d.is_pending(0));
    d.poll_timers(Instant { ticks: 110 });
    assert!(d.is_pending(0));
    assert_eq!(d.dispatch(), Some(Request { task: 0, payload: 9 }));
    assert_eq!(d.spawn_after(0, 1, start, 0), Ok(()));
}

#[test]
fn deferred_spawn_waits_for_free_slot() {
    let mut d = monitor();
    d.spawn(2, 1).unwrap();
    d.spawn_after(2, 2, Instant { ticks: 0 }, 0).unwrap();
    d.poll_timers(Instant { ticks: 0 });
    assert_eq!(d.pending_len(), 1);
    assert_eq!(d.dispatch(), Some(Request { task: 2, payload: 1 }));
    d.poll_timers(Instant { ticks: 1 });
    assert!(d.is_pending(2));
    assert_eq!(d.complete(), 2);
    assert_eq!(d.dispatch(), Some(Request { task: 2, payload: 2 }));
}
