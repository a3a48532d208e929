use mcap_viewer::cache::Key;
use mcap_viewer::widgets::{IconButton, MemorizeTextEdit};
use mcap_viewer::Error;

#[test]
fn text_edit_hint() {
    let e = MemorizeTextEdit::new();
    assert!(e.hint.is_none());
    let owned = String::from("topic name");
    let e = e.hint(&owned);
    assert_eq!(e.hint, Some("topic name"));
}

#[test]
fn icons_and_keys() {
    assert_ne!(IconButton::Add, IconButton::Close);
    assert_eq!(IconButton::Copy, IconButton::Copy);
    let a = Key { topic: "/t", field: "x", time_range: [0, 10], num_points: 100 };
    let b = Key { topic: "/t", field: "x", time_range: [0, 10], num_points: 100 };
    assert_eq!(a, b);
    assert_ne!(a, Key { num_points: 99, ..b });
}

#[test]
fn error_wraps_both_kinds() {
    let e = Error::Schema(mcap_viewer::schema::Error::InvalidMessageName("x".to_owned()));
    assert!(matches!(e, Error::Schema(_)));
}
