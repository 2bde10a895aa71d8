use francium::handle_table::{Handle, HandleTable, MAX_HANDLES};
use francium::os_error::{Module, Reason, ResultCode};

#[test]
fn new_table_is_vacant() {
    let t = HandleTable::new();
    assert_eq!(t.get_object(0), Handle::Invalid);
    assert_eq!(t.get_object(255), Handle::Invalid);
    assert!(!t.is_full());
}

#[test]
fn ids_out_of_range_are_invalid() {
    let mut t = HandleTable::new();
    t.get_handle(Handle::Port(1));
    assert_eq!(t.get_object(256), Handle::Invalid);
    assert_eq!(t.get_object(u32::MAX), Handle::Invalid);
    assert_eq!(t.close(256), ResultCode::Error(Module::Kernel, Reason::InvalidHandle));
    assert_eq!(t.close(u32::MAX), ResultCode::Error(Module::Kernel, Reason::InvalidHandle));
}

#[test]
fn insert_takes_lowest_vacant_slot() {
    let mut t = HandleTable::new();
    assert_eq!(t.get_handle(Handle::Port(7)), 0);
    assert_eq!(t.get_handle(Handle::Thread(8)), 1);
    assert_eq!(t.get_handle(Handle::Event(9)), 2);
    assert_eq!(t.close(1), ResultCode::Success);
    assert_eq!(t.get_handle(Handle::Process(10)), 1);
    assert_eq!(t.get_object(0), Handle::Port(7));
    assert_eq!(t.get_object(1), Handle::Process(10));
    assert_eq!(t.get_object(2), Handle::Event(9));
}

#[test]
fn close_after_insert() {
    let mut t = HandleTable::new();
    let id = t.get_handle(Handle::ClientSession(3));
    assert_eq!(t.get_object(id), Handle::ClientSession(3));
    assert!(t.close(id).is_ok());
    assert_eq!(t.get_object(id), Handle::Invalid);
    assert_eq!(t.close(id), ResultCode::new(Module::Kernel, Reason::InvalidHandle));
    assert!(!t.close(id).is_ok());
}

#[test]
fn scenario_handle_table_full() {
    let mut t = HandleTable::new();
    for i in 0..MAX_HANDLES {
        assert!(!t.is_full());
        assert_eq!(t.get_handle(Handle::Event(i as u64)), i as u32);
    }
    assert!(t.is_full());
    assert_eq!(t.get_object(255), Handle::Event(255));
}

#[test]
fn result_codes_carry_module_and_reason() {
    assert_eq!(ResultCode::new(Module::Fs, Reason::NotFound), ResultCode::Error(Module::Fs, Reason::NotFound));
    assert!(!ResultCode::new(Module::Kernel, Reason::OutOfMemory).is_ok());
    assert!(ResultCode::Success.is_ok());
    assert_ne!(ResultCode::new(Module::Kernel, Reason::Unknown), ResultCode::Success);
}
