use std::cell::RefCell;
use std::rc::Rc;

use may_minihttp::cancellation::is_cancelled_error;
use may_minihttp::{CancellationToken, ClientErrorKind, ErrorKind};

fn shared() -> Rc<RefCell<CancellationToken>> {
    Rc::new(RefCell::new(CancellationToken::new()))
}

#[test]
fn cancellation_is_sticky_idempotent_and_clone_shared() {
    let token = shared();
    let clone = token.clone();
    assert!(!token.borrow().is_cancelled());
    assert!(clone.borrow_mut().cancel());
    assert!(!token.borrow_mut().cancel());
    assert!(token.borrow().is_cancelled());
    assert!(is_cancelled_error(&token.borrow().check().unwrap_err()));
}

#[test]
fn dropping_a_token_does_not_cancel_its_clone() {
    let token = shared();
    let clone = token.clone();
    drop(token);
    assert!(!clone.borrow().is_cancelled());
    clone.borrow().check().unwrap();
}

#[test]
fn a_cancelled_request_has_a_class_of_its_own() {
    let mut token = CancellationToken::default();
    token.cancel();
    let error = token.check().unwrap_err();
    assert_eq!(error.kind(), ErrorKind::Interrupted);
    assert_eq!(error.message(), "HTTP request cancelled");
    assert_eq!(ClientErrorKind::classify(&error), ClientErrorKind::Cancelled);
}
