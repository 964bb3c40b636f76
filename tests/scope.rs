use byt::scope::{RustScope, ScopeError};
use termion::event::Key;

#[test]
fn tests_it_uses_a_rust_closure() {
    let mut bar = 0;
    let mut rust = RustScope::new(0);

    rust.register("foo", |state, target, c| {
        *target = 2;
    });

    let _ = rust.call("foo", &mut bar, Key::Char('a'));
    assert_eq!(bar, 2);
}

#[test]
fn a_missing_name_is_an_error() {
    let mut bar = 0;
    let mut rust = RustScope::new(5);
    rust.register("foo", |state: &mut i32, target: &mut i32, _c: Key| {
        *target = *state;
    });
    assert!(rust.has_function("foo"));
    assert!(!rust.has_function("bar"));
    assert_eq!(rust.call("bar", &mut bar, Key::Char('a')), Err(ScopeError::NotFound));
    assert_eq!(bar, 0);
    assert_eq!(rust.call("foo", &mut bar, Key::Char('a')), Ok(()));
    assert_eq!(bar, 5);
    assert_eq!(*rust.get_state(), 5);
}
