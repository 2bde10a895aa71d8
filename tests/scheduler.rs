use francium::scheduler::{
    force_switch_to, get_current_process, get_current_thread, register_thread, suspend_current_thread,
    suspend_process, terminate_current_process, terminate_current_thread, tick, wake_thread,
    Scheduler, Switch, Thread, ThreadState,
};

fn thread(id: u64, process: u64) -> Thread {
    Thread { id, process, state: ThreadState::Created, return_register: 0 }
}

fn with_threads(ids: &[(u64, u64)]) -> Scheduler {
    let mut s = Scheduler::new();
    for &(id, p) in ids {
        register_thread(&mut s, thread(id, p));
    }
    s
}

fn state_of(s: &Scheduler, id: u64) -> ThreadState {
    s.thread_at(s.thread_index(id).unwrap()).state
}

#[test]
fn tick_without_threads_does_nothing() {
    let mut s = Scheduler::new();
    assert_eq!(tick(&mut s), None);
    assert_eq!(s.current_thread_index, 0);
}

#[test]
fn register_makes_runnable() {
    let s = with_threads(&[(1, 0), (2, 0)]);
    assert_eq!(state_of(&s, 1), ThreadState::Runnable);
    assert_eq!(s.runnable_position(2), Some(1));
    assert_eq!(get_current_thread(&s), 1);
}

#[test]
fn scenario_round_robin_three() {
    let mut s = with_threads(&[(1, 0), (2, 0), (3, 0)]);
    assert_eq!(get_current_thread(&s), 1);
    assert_eq!(tick(&mut s), Some(Switch { from: 1, to: 2 }));
    assert_eq!(get_current_thread(&s), 2);
    assert_eq!(tick(&mut s), Some(Switch { from: 2, to: 3 }));
    assert_eq!(get_current_thread(&s), 3);
    assert_eq!(tick(&mut s), Some(Switch { from: 3, to: 1 }));
    assert_eq!(get_current_thread(&s), 1);
}

#[test]
fn n_ticks_run_each_thread_once() {
    let mut s = with_threads(&[(10, 0), (11, 0), (12, 0), (13, 0), (14, 0)]);
    force_switch_to(&mut s, 12);
    let mut seen = Vec::new();
    for _ in 0..5 {
        tick(&mut s);
        seen.push(get_current_thread(&s));
    }
    assert_eq!(seen, vec![13, 14, 10, 11, 12]);
}

#[test]
fn single_thread_tick_needs_no_switch() {
    let mut s = with_threads(&[(1, 0)]);
    assert_eq!(tick(&mut s), None);
    assert_eq!(get_current_thread(&s), 1);
}

#[test]
fn scenario_suspend_current() {
    let mut s = with_threads(&[(1, 0), (2, 0), (3, 0)]);
    assert_eq!(suspend_current_thread(&mut s), Some(Switch { from: 1, to: 2 }));
    assert_eq!(get_current_thread(&s), 2);
    assert_eq!(state_of(&s, 1), ThreadState::Suspended);
    assert_eq!(s.runnable_position(1), None);
    wake_thread(&mut s, 1, 0);
    assert_eq!(s.runnable_position(1), Some(s.current_thread_index + 1));
    assert_eq!(state_of(&s, 1), ThreadState::Runnable);
    assert_eq!(get_current_thread(&s), 2);
}

#[test]
fn suspend_and_wake_other_keeps_current() {
    let mut s = with_threads(&[(1, 0), (2, 0), (3, 0), (4, 0)]);
    force_switch_to(&mut s, 3);
    assert_eq!(suspend_process(&mut s, 1), None);
    assert_eq!(get_current_thread(&s), 3);
    wake_thread(&mut s, 1, 5);
    assert_eq!(get_current_thread(&s), 3);
    assert_eq!(suspend_process(&mut s, 4), None);
    assert_eq!(get_current_thread(&s), 3);
    wake_thread(&mut s, 4, 0);
    assert_eq!(get_current_thread(&s), 3);
}

#[test]
fn suspend_of_a_blocked_thread_changes_nothing() {
    let mut s = with_threads(&[(1, 0), (2, 0), (3, 0)]);
    suspend_process(&mut s, 2);
    assert_eq!(suspend_process(&mut s, 2), None);
    assert_eq!(get_current_thread(&s), 1);
    assert_eq!(s.thread_is_suspended(2), true);
    assert_eq!(s.thread_is_suspended(1), false);
    assert_eq!(s.thread_is_suspended(99), false);
}

#[test]
fn suspend_last_in_list_wraps_to_front() {
    let mut s = with_threads(&[(1, 0), (2, 0), (3, 0)]);
    force_switch_to(&mut s, 3);
    assert_eq!(suspend_current_thread(&mut s), Some(Switch { from: 3, to: 1 }));
    assert_eq!(s.current_thread_index, 0);
}

#[test]
fn wake_writes_return_register() {
    let mut s = with_threads(&[(1, 0), (2, 0)]);
    suspend_process(&mut s, 2);
    wake_thread(&mut s, 2, 42);
    assert_eq!(s.thread_at(s.thread_index(2).unwrap()).return_register, 42);
}

#[test]
fn terminate_thread_forgets_it() {
    let mut s = with_threads(&[(1, 0), (2, 0), (3, 0)]);
    assert_eq!(terminate_current_thread(&mut s), Some(Switch { from: 1, to: 2 }));
    assert_eq!(s.thread_index(1), None);
    assert_eq!(s.runnable_position(1), None);
    assert_eq!(get_current_thread(&s), 2);
    assert_eq!(s.thread_count(), 2);
}

#[test]
fn terminate_process_stops_its_threads() {
    let mut s = with_threads(&[(1, 7), (2, 8), (3, 7), (4, 7), (5, 8)]);
    assert_eq!(get_current_process(&s), 7);
    let sw = terminate_current_process(&mut s);
    assert_eq!(sw, Some(Switch { from: 1, to: get_current_thread(&s) }));
    assert_eq!(s.thread_index(1), None);
    assert_eq!(s.runnable_position(3), None);
    assert_eq!(s.runnable_position(4), None);
    assert_eq!(state_of(&s, 3), ThreadState::Suspended);
    assert!(s.runnable_position(2).is_some());
    assert!(s.runnable_position(5).is_some());
    assert_eq!(get_current_process(&s), 8);
}

#[test]
fn terminate_process_keeps_order_of_others() {
    let mut s = with_threads(&[(1, 7), (2, 8), (3, 7), (4, 8), (5, 8)]);
    terminate_current_process(&mut s);
    let mut order = Vec::new();
    for _ in 0..3 {
        order.push(get_current_thread(&s));
        tick(&mut s);
    }
    assert_eq!(order, vec![2, 4, 5]);
    assert_eq!(s.thread_is_suspended(3), true);
}

#[test]
fn terminate_thread_passes_turn_to_successor() {
    let mut s = with_threads(&[(1, 0), (2, 0), (3, 0)]);
    force_switch_to(&mut s, 3);
    assert_eq!(terminate_current_thread(&mut s), Some(Switch { from: 3, to: 1 }));
    assert_eq!(s.current_thread_index, 0);
}

#[test]
fn terminate_process_keeps_blocked_threads_suspended() {
    let mut s = with_threads(&[(1, 0), (2, 0), (3, 0), (4, 1)]);
    suspend_process(&mut s, 2);
    assert_eq!(state_of(&s, 2), ThreadState::Suspended);
    let sw = terminate_current_process(&mut s);
    assert_eq!(sw, Some(Switch { from: 1, to: 4 }));
    assert_eq!(s.thread_index(1), None);
    assert_eq!(state_of(&s, 2), ThreadState::Suspended);
    assert_eq!(state_of(&s, 3), ThreadState::Suspended);
    assert_eq!(state_of(&s, 4), ThreadState::Runnable);
    assert_eq!(s.runnable_count(), 1);
}
