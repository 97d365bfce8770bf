use emacs_rust::dynlib::{
    clear_error, record_error_bytes, record_error_string, record_invalid_handle,
    record_null_symbol, LastError,
};

fn message(state: &LastError) -> Vec<u8> {
    let c = state.c_str();
    assert_eq!(c.last(), Some(&0u8));
    c[..c.len() - 1].to_vec()
}

#[test]
fn last_error_round_trip() {
    let mut guard = LastError::default();
    guard.set_bytes(b"example");
    assert!(guard.take_ptr());
    assert!(!guard.take_ptr());
    guard.set_bytes(b"next\0ignored");
    let taken = guard.take_ptr();
    assert!(taken);
    assert_eq!(message(&guard), b"next".to_vec());
}

#[test]
fn new_state_has_nothing_pending() {
    let mut state = LastError::new();
    assert!(!state.take_ptr());
    assert_eq!(state.c_str(), &[0u8][..]);
}

#[test]
fn clear_drops_pending_error() {
    let mut state = LastError::new();
    record_error_bytes(&mut state, b"boom");
    clear_error(&mut state);
    assert!(!state.take_ptr());
    assert_eq!(message(&state), b"boom".to_vec());
}

#[test]
fn fixed_messages() {
    let mut state = LastError::new();
    record_invalid_handle(&mut state);
    assert!(state.take_ptr());
    assert_eq!(message(&state), b"dynlib: invalid handle".to_vec());
    record_null_symbol(&mut state);
    assert_eq!(message(&state), b"dynlib: symbol name is null".to_vec());
    record_error_string(&mut state, "libfoo.so: cannot open");
    assert!(state.take_ptr());
    assert_eq!(message(&state), b"libfoo.so: cannot open".to_vec());
    record_error_bytes(&mut state, b"");
    assert!(state.take_ptr());
    assert_eq!(message(&state), Vec::<u8>::new());
}

#[test]
fn loader_errors_are_recorded_with_their_text() {
    let mut state = LastError::new();
    emacs_rust::dynlib::record_libloading_error(&mut state, libloading::Error::DlOpenUnknown);
    assert!(state.take_ptr());
    assert_eq!(message(&state), b"dlopen failed, but system did not report the error".to_vec());
    assert!(!state.take_ptr());
}
