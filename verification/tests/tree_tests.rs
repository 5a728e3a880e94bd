use active_tree::adapter::Event;
use active_tree::field::{Data, Val, ValColl};
use active_tree::tree::Tree;

fn plain(start_at: u64) -> Data {
    Data::new(start_at, ValColl::new())
}

#[test]
fn balanced_inserts_and_removes_leave_the_tree_empty() {
    let mut t = Tree::new();
    let a = t.insert(None, String::from("a"), String::from("x.rs:1"), plain(0));
    let b = t.insert(Some(a), String::from("b"), String::from("x.rs:2"), plain(0));
    let c = t.insert(Some(b), String::from("c"), String::from("x.rs:3"), plain(0));
    assert_eq!(t.len(), 3);
    t.remove(c);
    t.remove(b);
    t.remove(a);
    assert_eq!(t.len(), 0);
    assert_eq!(t.render_at(0), "");
    assert!(t.snapshot_roots().is_empty());
}

#[test]
fn identifiers_are_never_reused_while_live() {
    let mut t = Tree::new();
    let a = t.insert(None, String::from("a"), String::from("x.rs:1"), plain(0));
    let b = t.insert(None, String::from("b"), String::from("x.rs:2"), plain(0));
    assert_ne!(a, b);
    t.remove(a);
    let c = t.insert(None, String::from("c"), String::from("x.rs:3"), plain(0));
    assert_ne!(c, b);
    assert_ne!(c, a);
}

#[test]
fn removing_a_parent_out_of_order_reparents_its_children() {
    let mut t = Tree::new();
    let a = t.insert(None, String::from("a"), String::from("x.rs:1"), plain(0));
    let b = t.insert(Some(a), String::from("b"), String::from("x.rs:2"), plain(0));
    t.remove(a);
    assert!(!t.contains(a));
    assert!(t.contains(b));
    assert_eq!(t.snapshot_roots(), vec![b]);
    let dump = t.render_at(0);
    assert_eq!(dump, "[x.rs:2] [span_id=1] [\"b\"] [elapsed=0ns]\n");
}

#[test]
fn grandparent_adopts_children_removed_out_of_order() {
    let mut t = Tree::new();
    let a = t.insert(None, String::from("a"), String::from("x.rs:1"), plain(0));
    let b = t.insert(Some(a), String::from("b"), String::from("x.rs:2"), plain(0));
    let c = t.insert(Some(b), String::from("c"), String::from("x.rs:3"), plain(0));
    t.remove(b);
    assert!(t.contains(a) && t.contains(c) && !t.contains(b));
    let dump = t.render_at(0);
    assert_eq!(
        dump,
        "[x.rs:1] [span_id=0] [\"a\"] [elapsed=0ns]\n\
         └── [x.rs:3] [span_id=2] [\"c\"] [elapsed=0ns]\n"
    );
}

#[test]
fn unknown_identifiers_are_ignored() {
    let mut t = Tree::new();
    let a = t.insert(None, String::from("a"), String::from("x.rs:1"), plain(0));
    let before = t.render_at(7);
    t.remove(99);
    t.record(99, String::from("k"), Val::U64(1));
    assert_eq!(t.render_at(7), before);
    assert!(t.contains(a));
}

#[test]
fn an_unknown_parent_starts_a_new_root_group() {
    let mut t = Tree::new();
    let a = t.insert(Some(42), String::from("a"), String::from("x.rs:1"), plain(0));
    assert_eq!(t.snapshot_roots(), vec![a]);
}

#[test]
fn recorded_attributes_are_appended() {
    let mut t = Tree::new();
    let a = t.insert(None, String::from("a"), String::from("x.rs:1"), plain(0));
    t.record(a, String::from("k"), Val::U64(7));
    t.record(a, String::from("msg"), Val::String(String::from("hi")));
    let dump = t.render_at(0);
    assert_eq!(dump, "[x.rs:1] [span_id=0] [\"a\"] [k=7] [msg=\"hi\"] [elapsed=0ns]\n");
}

#[test]
fn recording_a_whole_collection_appends_in_order() {
    let mut t = Tree::new();
    let a = t.insert(None, String::from("a"), String::from("x.rs:1"), plain(0));
    let mut fv = ValColl::new();
    fv.push(String::from("k"), Val::U64(7));
    fv.push(String::from("b"), Val::Bool(false));
    t.record_all(a, &fv);
    t.record_all(99, &fv);
    let dump = t.render_at(0);
    assert_eq!(dump, "[x.rs:1] [span_id=0] [\"a\"] [k=7] [b=false] [elapsed=0ns]\n");
}

#[test]
fn a_balanced_event_sequence_empties_the_tree() {
    let mut t = Tree::new();
    t.handle(Event::Create {
        parent: None,
        label: String::from("outer"),
        location: String::from("x.rs:1"),
        data: plain(0),
    });
    t.handle(Event::Create {
        parent: Some(0),
        label: String::from("inner"),
        location: String::from("x.rs:2"),
        data: plain(0),
    });
    t.handle(Event::Enter { id: 1 });
    t.handle(Event::Record { id: 1, key: String::from("k"), val: Val::Bool(true) });
    t.handle(Event::Exit { id: 1 });
    assert_eq!(t.len(), 2);
    t.handle(Event::Close { id: 1 });
    t.handle(Event::Close { id: 0 });
    assert_eq!(t.len(), 0);
    assert_eq!(t.render_at(0), "");
}

#[test]
fn enter_and_exit_do_not_change_the_tree() {
    let mut t = Tree::new();
    let a = t.insert(None, String::from("a"), String::from("x.rs:1"), plain(0));
    let before = t.render_at(3);
    t.handle(Event::Enter { id: a });
    t.handle(Event::Exit { id: a });
    assert_eq!(t.render_at(3), before);
}
