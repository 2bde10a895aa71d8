//! Core of a small microkernel: page tables, handle tables, the round-robin
//! scheduler, waiters and port-based IPC, modelled over plain values.
pub mod id_list;
pub mod mmu;
pub mod os_error;
pub mod handle_table;
pub mod scheduler;
pub mod waiter;
pub mod ipc;
