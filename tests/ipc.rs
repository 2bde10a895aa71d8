use francium::handle_table::Handle;
use francium::ipc::{
    svc_connect_to_port, svc_connect_to_port_resumed, svc_create_port, svc_ipc_accept, svc_ipc_receive, svc_ipc_receive_resumed,
    svc_ipc_reply, svc_ipc_request, Kernel, Step,
};
use francium::scheduler::{force_switch_to, get_current_thread, register_thread, Thread, ThreadState};
use francium::waiter::{resume, Waiter};

const U: u64 = 1;
const V: u64 = 2;
const IDLE: u64 = 3;

fn kernel() -> Kernel {
    let mut k = Kernel::new();
    let pu = k.create_process();
    let pv = k.create_process();
    let pi = k.create_process();
    for (id, p) in [(U, pu), (V, pv), (IDLE, pi)] {
        register_thread(&mut k.scheduler, Thread { id, process: p, state: ThreadState::Created, return_register: 0 });
    }
    k
}

fn tag_of(k: &Kernel, id: u64) -> usize {
    k.scheduler.thread_at(k.scheduler.thread_index(id).unwrap()).return_register
}

/// Runs the connect-before-create rendezvous; returns (port, server, client)
/// handles.
fn connect(k: &mut Kernel) -> (u32, u32, u32) {
    force_switch_to(&mut k.scheduler, U);
    match svc_connect_to_port(k, 42) {
        Step::Parked(sw) => assert_eq!(sw.from, U),
        _ => panic!("connect should park"),
    }
    assert!(k.scheduler.thread_is_suspended(U));
    force_switch_to(&mut k.scheduler, V);
    let (err, port) = svc_create_port(k, 42);
    assert_eq!(err, 0);
    assert!(!k.scheduler.thread_is_suspended(U));
    force_switch_to(&mut k.scheduler, U);
    let session = match svc_connect_to_port(k, 42) {
        Step::Pending(c, sw) => {
            assert_eq!(sw.from, U);
            c
        },
        _ => panic!("connect should block until accepted"),
    };
    assert!(k.scheduler.thread_is_suspended(U));
    assert_eq!(k.handle_tables[0].get_object(0), Handle::Invalid);
    force_switch_to(&mut k.scheduler, V);
    let (err, server) = svc_ipc_accept(k, port);
    assert_eq!(err, 0);
    assert!(!k.scheduler.thread_is_suspended(U));
    force_switch_to(&mut k.scheduler, U);
    let (err, client) = svc_connect_to_port_resumed(k, session);
    assert_eq!(err, 0);
    (port, server, client)
}

#[test]
fn scenario_connect_before_create() {
    let mut k = kernel();
    let (port, server, client) = connect(&mut k);
    assert_eq!(k.handle_tables[1].get_object(port), Handle::Port(0));
    assert_eq!(k.handle_tables[1].get_object(server), Handle::ServerSession(0));
    assert_eq!(k.handle_tables[0].get_object(client), Handle::ClientSession(0));
    assert_eq!(k.client_sessions[0].server, 0);
    assert_eq!(k.server_sessions[0].client, Some(0));
    assert!(k.port_waiters.is_empty());
}

#[test]
fn scenario_request_reply() {
    let mut k = kernel();
    let (port, server, client) = connect(&mut k);
    force_switch_to(&mut k.scheduler, V);
    let handles = vec![port, server];
    match svc_ipc_receive(&mut k, &handles) {
        Step::Parked(sw) => assert_eq!(sw.from, V),
        _ => panic!("receive should block"),
    }
    force_switch_to(&mut k.scheduler, U);
    k.write_ipc_buffer(U, vec![0xAA, 0xBB]);
    match svc_ipc_request(&mut k, client) {
        Step::Blocked(0, sw) => assert_eq!(sw.from, U),
        _ => panic!("request should block"),
    }
    assert!(!k.scheduler.thread_is_suspended(V));
    let index = tag_of(&k, V);
    assert_eq!(index, 1);
    force_switch_to(&mut k.scheduler, V);
    assert_eq!(svc_ipc_receive_resumed(&mut k, &handles, index), (0, 1));
    assert_eq!(k.server_sessions[0].client_thread, Some(U));
    assert_eq!(k.read_ipc_buffer(V), vec![0xAA, 0xBB]);
    k.write_ipc_buffer(V, vec![0xCC]);
    assert_eq!(svc_ipc_reply(&mut k, server), 0);
    assert_eq!(k.server_sessions[0].client_thread, None);
    assert!(!k.scheduler.thread_is_suspended(U));
    assert_eq!(k.read_ipc_buffer(U), vec![0xCC]);
    assert!(k.ports[0].wait.queue.is_empty());
    assert!(k.server_sessions[0].wait.queue.is_empty());
}

#[test]
fn requests_are_served_in_arrival_order() {
    let mut k = kernel();
    let (port, server, client) = connect(&mut k);
    // a second client thread of the first process
    register_thread(&mut k.scheduler, Thread { id: 4, process: 0, state: ThreadState::Created, return_register: 0 });
    force_switch_to(&mut k.scheduler, U);
    assert!(matches!(svc_ipc_request(&mut k, client), Step::Blocked(0, _)));
    force_switch_to(&mut k.scheduler, 4);
    assert!(matches!(svc_ipc_request(&mut k, client), Step::Blocked(0, _)));
    force_switch_to(&mut k.scheduler, V);
    let handles = vec![port, server];
    assert_eq!(svc_ipc_receive_resumed(&mut k, &handles, 1), (0, 1));
    assert_eq!(k.server_sessions[0].client_thread, Some(U));
    assert_eq!(svc_ipc_reply(&mut k, server), 0);
    assert_eq!(svc_ipc_receive_resumed(&mut k, &handles, 1), (0, 1));
    assert_eq!(k.server_sessions[0].client_thread, Some(4));
    assert_eq!(svc_ipc_reply(&mut k, server), 0);
}

#[test]
fn wrong_handle_kinds_are_errors() {
    let mut k = kernel();
    force_switch_to(&mut k.scheduler, V);
    let (_, port) = svc_create_port(&mut k, 0);
    assert!(k.port_list.is_empty());
    assert_eq!(svc_ipc_accept(&mut k, port + 1), (1, 0xffff_ffff));
    assert!(matches!(svc_ipc_request(&mut k, port), Step::Ready(1)));
    assert_eq!(svc_ipc_reply(&mut k, port), 1);
    assert!(matches!(svc_ipc_receive(&mut k, &vec![port, 77]), Step::Ready((1, 0))));
    assert_eq!(get_current_thread(&k.scheduler), V);
}

#[test]
fn named_port_is_published() {
    let mut k = kernel();
    let (err, h) = svc_create_port(&mut k, 7);
    assert_eq!((err, h), (0, 0));
    assert_eq!(k.port_list.get(&7), Some(&0));
    assert_eq!(k.handle_tables[0].get_object(h), Handle::Port(0));
}

#[test]
fn signal_without_waiter_is_lost() {
    let mut k = kernel();
    let mut w = Waiter::new();
    assert_eq!(w.signal_one(&mut k.scheduler), None);
    w.enqueue_current(&k.scheduler, 0);
    // the queued thread is running, not blocked: nobody is woken
    assert_eq!(w.signal_one(&mut k.scheduler), None);
    assert!(w.queue.is_empty());
}

#[test]
fn signal_wakes_first_blocked_with_its_tag() {
    let mut k = kernel();
    let mut w = Waiter::new();
    w.enqueue_current(&k.scheduler, 0);
    let sw = w.wait(&mut k.scheduler);
    assert_eq!(sw.from, U);
    force_switch_to(&mut k.scheduler, V);
    w.enqueue_current(&k.scheduler, 5);
    francium::scheduler::suspend_current_thread(&mut k.scheduler);
    assert_eq!(w.queue.len(), 3);
    assert_eq!(w.signal_one(&mut k.scheduler), Some(U));
    assert_eq!(tag_of(&k, U), 0);
    assert_eq!(w.signal_one(&mut k.scheduler), Some(V));
    assert_eq!(tag_of(&k, V), 5);
    assert!(w.queue.is_empty());
    assert!(!resume(&mut k.scheduler, V, 1));
}

#[test]
fn reply_to_abandoned_session_is_dropped() {
    let mut k = kernel();
    let (port, server, client) = connect(&mut k);
    force_switch_to(&mut k.scheduler, U);
    assert!(matches!(svc_ipc_request(&mut k, client), Step::Blocked(0, _)));
    force_switch_to(&mut k.scheduler, V);
    assert_eq!(svc_ipc_receive_resumed(&mut k, &vec![port, server], 1), (0, 1));
    k.server_sessions[0].client = None;
    k.write_ipc_buffer(V, vec![1, 2, 3]);
    assert_eq!(svc_ipc_reply(&mut k, server), 0);
    assert_eq!(k.server_sessions[0].client_thread, None);
    assert!(k.scheduler.thread_is_suspended(U));
    assert_eq!(k.read_ipc_buffer(U), Vec::<u8>::new());
}

#[test]
fn accept_of_non_port_needs_no_free_slot() {
    let mut k = kernel();
    force_switch_to(&mut k.scheduler, V);
    let (_, port) = svc_create_port(&mut k, 0);
    for i in 0..255u64 {
        k.handle_tables[1].get_handle(Handle::Event(i));
    }
    assert!(k.handle_tables[1].is_full());
    assert_eq!(svc_ipc_accept(&mut k, port + 1), (1, 0xffff_ffff));
}

#[test]
fn parked_threads_wake_with_zero() {
    let mut k = kernel();
    francium::scheduler::suspend_process(&mut k.scheduler, U);
    francium::scheduler::wake_thread(&mut k.scheduler, U, 5);
    assert_eq!(tag_of(&k, U), 5);
    force_switch_to(&mut k.scheduler, U);
    assert!(matches!(svc_connect_to_port(&mut k, 9), Step::Parked(_)));
    force_switch_to(&mut k.scheduler, V);
    svc_create_port(&mut k, 9);
    assert_eq!(tag_of(&k, U), 0);
    assert!(!k.scheduler.thread_is_suspended(U));
}

#[test]
fn lone_client_connects_to_waiting_server() {
    let mut k = kernel();
    force_switch_to(&mut k.scheduler, V);
    let (_, port) = svc_create_port(&mut k, 42);
    assert!(matches!(svc_ipc_receive(&mut k, &vec![port]), Step::Parked(_)));
    francium::scheduler::suspend_process(&mut k.scheduler, IDLE);
    force_switch_to(&mut k.scheduler, U);
    assert_eq!(k.scheduler.runnable_count(), 1);
    assert!(k.ports[0].wait.has_blocked(&k.scheduler));
    match svc_connect_to_port(&mut k, 42) {
        Step::Pending(c, sw) => {
            assert_eq!(c, 0);
            assert_eq!((sw.from, sw.to), (U, V));
        },
        _ => panic!("connect should block until accepted"),
    }
    assert!(k.scheduler.thread_is_suspended(U));
    assert!(!k.scheduler.thread_is_suspended(V));
    assert_eq!(k.ports[0].queue_len(), 1);
}

#[test]
fn lone_client_requests_from_waiting_server() {
    let mut k = kernel();
    let (port, server, client) = connect(&mut k);
    force_switch_to(&mut k.scheduler, V);
    assert!(matches!(svc_ipc_receive(&mut k, &vec![port, server]), Step::Parked(_)));
    francium::scheduler::suspend_process(&mut k.scheduler, IDLE);
    force_switch_to(&mut k.scheduler, U);
    assert_eq!(k.scheduler.runnable_count(), 1);
    match svc_ipc_request(&mut k, client) {
        Step::Blocked(0, sw) => assert_eq!((sw.from, sw.to), (U, V)),
        _ => panic!("request should block"),
    }
    assert_eq!(tag_of(&k, V), 1);
    assert!(k.scheduler.thread_is_suspended(U));
}
