use west::error::ErrorKind;
use west::facade::{call_step, dispatch_call, resource_drop, CallEvent, CallState, Dispatch};
use west::resource::ResourceTable;
use west::slot::ErrorSlot;
use west::value::Token;
use west::List;

#[test]
fn drop_sentinel_is_intercepted() {
    match dispatch_call(&String::from("[resource-drop]res")) {
        Dispatch::DropResource(suffix) => assert_eq!(suffix, "res"),
        Dispatch::Invoke => panic!("drop name must take the drop path"),
    }
    match dispatch_call(&String::from("identity-bool")) {
        Dispatch::Invoke => {},
        Dispatch::DropResource(_) => panic!("plain name must invoke"),
    }
}

#[test]
fn resource_drop_then_second_drop_misses() {
    let mut tbl = ResourceTable::new();
    let rep = tbl.push(Token { id: 11, ty: 2 }).unwrap();
    let cells = vec![rep as u64];
    let tok = resource_drop(&cells, &mut tbl).unwrap();
    assert_eq!(tok, Token { id: 11, ty: 2 });
    let e = resource_drop(&cells, &mut tbl).unwrap_err();
    assert_eq!(e.kind, ErrorKind::ResourceTableMiss);
}

#[test]
fn call_states_walk_the_happy_path() {
    let mut s = CallState::Idle;
    for expected in [
        CallState::LookingUp,
        CallState::Lifting,
        CallState::Invoking,
        CallState::Lowering,
        CallState::PostReturn,
        CallState::Idle,
    ] {
        s = call_step(s, CallEvent::Advance, false);
        assert_eq!(s, expected);
    }
}

#[test]
fn any_working_state_falls_to_failed_then_idle() {
    let s = call_step(CallState::Idle, CallEvent::Advance, false);
    let s = call_step(s, CallEvent::Fault, false);
    assert_eq!(s, CallState::Failed);
    assert_eq!(call_step(s, CallEvent::Advance, false), CallState::Idle);
    let d = call_step(CallState::Idle, CallEvent::Advance, true);
    assert_eq!(d, CallState::Dropping);
    assert_eq!(call_step(d, CallEvent::Advance, false), CallState::Idle);
}

#[test]
fn error_slot_stores_measures_and_drains() {
    let mut slot = ErrorSlot::new();
    assert_eq!(slot.len(), 0);
    slot.store(b"boom".to_vec());
    assert_eq!(slot.len(), 5); // including the NUL
    assert_eq!(slot.len(), 5); // len does not drain
    let taken = slot.take(16);
    assert_eq!(taken, b"boom\0".to_vec());
    assert_eq!(slot.len(), 0);
    slot.store(b"again".to_vec());
    let clipped = slot.take(2);
    assert_eq!(clipped, b"ag".to_vec());
    assert_eq!(slot.len(), 0);
}

#[test]
fn list_descriptor_holds_address_and_count() {
    let l = List { ptr: 64, len: 6 };
    assert_eq!(l.ptr, 64);
    assert_eq!(l.len, 6);
}
