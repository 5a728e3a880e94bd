use active_tree::field::{Data, ValColl};
use active_tree::tree::Tree;
use active_tree::wrapper::FrameGuard;

fn plain() -> Data {
    Data::new(0, ValColl::new())
}

#[test]
fn cancelling_before_the_first_resumption_leaks_nothing() {
    let mut t = Tree::new();
    let before = t.render_at(0);
    let mut g = FrameGuard::frame();
    g.finish(&mut t);
    assert!(g.node.is_none());
    assert_eq!(t.render_at(0), before);
    assert_eq!(t.len(), 0);
}

#[test]
fn a_registered_frame_is_absent_from_snapshots_after_cancellation() {
    let mut t = Tree::new();
    let r = t.insert(None, String::from("task"), String::from("w.rs:1"), plain());
    let mut g = FrameGuard::frame();
    g.on_poll(&mut t, Some(r), String::from("await"), String::from("w.rs:2"), plain());
    let id = g.node.unwrap();
    assert!(t.contains(id));
    g.finish(&mut t);
    assert!(!t.contains(id));
    let dump = t.render_at(0);
    assert!(!dump.contains("[span_id=1]"));
}

#[test]
fn the_second_resumption_does_not_register_again() {
    let mut t = Tree::new();
    let mut g = FrameGuard::frame();
    g.on_poll(&mut t, None, String::from("op"), String::from("w.rs:3"), plain());
    let id = g.node.unwrap();
    g.on_poll(&mut t, None, String::from("op"), String::from("w.rs:3"), plain());
    assert_eq!(g.node.unwrap(), id);
    assert_eq!(t.len(), 1);
}

#[test]
fn finishing_twice_removes_only_once() {
    let mut t = Tree::new();
    let keeper = t.insert(None, String::from("task"), String::from("w.rs:1"), plain());
    let mut g = FrameGuard::frame();
    g.on_poll(&mut t, Some(keeper), String::from("await"), String::from("w.rs:2"), plain());
    g.finish(&mut t);
    let after_first = t.render_at(0);
    g.finish(&mut t);
    assert_eq!(t.render_at(0), after_first);
    assert!(t.contains(keeper));
}

#[test]
fn two_root_wrappers_make_two_distinct_root_groups() {
    let mut t = Tree::new();
    let mut g1 = FrameGuard::root();
    let mut g2 = FrameGuard::root();
    g1.on_poll(&mut t, Some(77), String::from("task one"), String::from("w.rs:4"), plain());
    g2.on_poll(&mut t, None, String::from("task two"), String::from("w.rs:5"), plain());
    let a = g1.node.unwrap();
    let b = g2.node.unwrap();
    assert_ne!(a, b);
    assert_eq!(t.snapshot_roots(), vec![a, b]);
    let dump = t.render_at(0);
    assert_eq!(
        dump,
        "[w.rs:4] [span_id=0] [\"task one\"] [elapsed=0ns]\n\
         [w.rs:5] [span_id=1] [\"task two\"] [elapsed=0ns]\n"
    );
    g1.finish(&mut t);
    g2.finish(&mut t);
    assert_eq!(t.len(), 0);
}
