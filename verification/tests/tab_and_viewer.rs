use mcap_viewer::cache::{kept_at_frame_end, next_generation};
use mcap_viewer::storage::DataStorage;
use mcap_viewer::tab::{edit_curves, tab_title, try_edit_curves, Curve};
use mcap_viewer::viewer::{layout_step, settle_layout, FileOperation, LayoutEvent, LayoutSource};

fn curve(topic: &str) -> Curve {
    Curve { topic: topic.to_owned(), field: "f".to_owned(), color: [1, 2, 3, 4] }
}

#[test]
fn removing_the_only_curve_leaves_a_default_one() {
    let mut curves = vec![curve("/a")];
    edit_curves(&mut curves, &[false], &[]);
    assert_eq!(curves, vec![Curve::default()]);
}

#[test]
fn copy_and_add_insert_after_their_row() {
    let mut curves = vec![curve("/a"), curve("/b")];
    edit_curves(&mut curves, &[true, true], &[(0, true), (1, false)]);
    // the last insertion is made first: a default after `/b`, then a copy of `/a` after `/a`
    assert_eq!(curves, vec![curve("/a"), curve("/a"), curve("/b"), Curve::default()]);
}

#[test]
fn edits_that_do_not_fit_change_nothing() {
    let mut curves = vec![curve("/a"), curve("/b")];
    assert!(!try_edit_curves(&mut curves, &[false, false], &[(1, true)]));
    assert_eq!(curves, vec![curve("/a"), curve("/b")]);
    assert!(try_edit_curves(&mut curves, &[true, false], &[(0, false)]));
    assert_eq!(curves, vec![curve("/a"), Curve::default()]);
}

#[test]
fn tab_titles() {
    assert_eq!(tab_title("", 0), "Tab 0");
    assert_eq!(tab_title("", 42), "Tab 42");
    assert_eq!(tab_title("Speeds", 42), "Speeds");
}

#[test]
fn layouts_settle_on_a_valid_one() {
    assert_eq!(settle_layout(&[], "x"), (true, "Default".to_owned()));
    let names = vec!["a".to_owned(), "b".to_owned()];
    assert_eq!(settle_layout(&names, "b"), (false, "b".to_owned()));
    assert_eq!(settle_layout(&names, "zzz"), (false, "a".to_owned()));
}

#[test]
fn loading_runs_one_at_a_time() {
    let mut op: FileOperation<u32> = FileOperation::Idle;
    assert!(!op.is_loading());
    op.finish();
    assert!(matches!(op, FileOperation::Idle));
    assert!(op.start(vec![1]));
    assert!(op.is_loading());
    assert!(!op.start(vec![2]));
    op.finish();
    assert!(matches!(op, FileOperation::Loaded(ref p) if p == &vec![1]));
    assert!(op.start(vec![3]));
}

#[test]
fn merge_of_mismatched_types_is_detected() {
    let mut a = DataStorage::new();
    a.new_visitor("/t", 1).visit_u8("x", 1);
    let mut b = DataStorage::new();
    b.new_visitor("/t", 2).visit_i8("x", 2);
    assert!(!a.can_merge(&b));
    let mut c = DataStorage::new();
    c.new_visitor("/t", 3).visit_u8("x", 3);
    c.new_visitor("/u", 3).visit_i8("x", 3);
    assert!(a.can_merge(&c));
    assert!(a.get_field("/t", "x").unwrap().compatible_with(c.get_field("/t", "x").unwrap()));
}

#[test]
fn layout_menu_steps() {
    let names = vec!["a".to_owned(), "b".to_owned()];
    let r = layout_step(&names, "a", LayoutEvent::Create("c".to_owned()));
    assert_eq!(r.active, "c");
    assert_eq!(r.add, Some(("c".to_owned(), LayoutSource::Empty)));
    let r = layout_step(&names, "a", LayoutEvent::Copy("c".to_owned()));
    assert_eq!(r.add, Some(("c".to_owned(), LayoutSource::CopyOf("a".to_owned()))));
    let r = layout_step(&names, "a", LayoutEvent::Create("b".to_owned()));
    assert!(r.add.is_none() && r.active == "b");
    let r = layout_step(&names, "a", LayoutEvent::Create(String::new()));
    assert!(r.add.is_none() && r.active == "a");
    let r = layout_step(&names, "a", LayoutEvent::Remove("b".to_owned()));
    assert_eq!(r.remove, Some("b".to_owned()));
    assert_eq!(r.active, "a");
    let r = layout_step(&names, "a", LayoutEvent::Select("b".to_owned()));
    assert!(r.remove.is_none() && r.add.is_none() && r.active == "b");
}

#[test]
fn every_edit_leaves_a_curve() {
    let mut curves = vec![curve("/a"), curve("/b")];
    edit_curves(&mut curves, &[false, false], &[]);
    assert_eq!(curves, vec![Curve::default()]);
    let mut curves = vec![curve("/a"), curve("/b")];
    edit_curves(&mut curves, &[false, true], &[(0, true)]);
    assert_eq!(curves, vec![curve("/b"), curve("/b")]);
}

#[test]
fn cache_generations() {
    assert!(kept_at_frame_end(7, 7));
    assert!(!kept_at_frame_end(6, 7));
    assert_eq!(next_generation(7), 8);
    assert_eq!(next_generation(u32::MAX), 0);
}
