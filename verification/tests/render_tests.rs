use active_tree::field::{Data, Val, ValColl};
use active_tree::tree::Tree;

fn plain(start_at: u64) -> Data {
    Data::new(start_at, ValColl::new())
}

#[test]
fn one_root_with_one_child_renders_one_header_and_one_child_line() {
    let mut t = Tree::new();
    let r = t.insert(None, String::from("root"), String::from("a.rs:1"), plain(0));
    let _c = t.insert(Some(r), String::from("child"), String::from("a.rs:2"), plain(0));
    let dump = t.render_at(5);
    assert_eq!(
        dump,
        "[a.rs:1] [span_id=0] [\"root\"] [elapsed=5ns]\n\
         └── [a.rs:2] [span_id=1] [\"child\"] [elapsed=5ns]\n"
    );
    assert_eq!(dump.lines().count(), 2);
    assert!(dump.contains("└── "));
}

#[test]
fn three_siblings_use_two_tees_and_one_corner() {
    let mut t = Tree::new();
    let mut fv = ValColl::new();
    fv.push(String::from("n"), Val::U64(3));
    let p = t.insert(None, String::from("par"), String::from("p.rs:1"), Data::new(0, fv));
    t.insert(Some(p), String::from("a"), String::from("p.rs:2"), plain(0));
    t.insert(Some(p), String::from("b"), String::from("p.rs:3"), plain(0));
    t.insert(Some(p), String::from("c"), String::from("p.rs:4"), plain(0));
    let dump = t.render_at(0);
    assert_eq!(
        dump,
        "[p.rs:1] [span_id=0] [\"par\"] [n=3] [elapsed=0ns]\n\
         ├── [p.rs:2] [span_id=1] [\"a\"] [elapsed=0ns]\n\
         ├── [p.rs:3] [span_id=2] [\"b\"] [elapsed=0ns]\n\
         └── [p.rs:4] [span_id=3] [\"c\"] [elapsed=0ns]\n"
    );
}

#[test]
fn deeper_levels_carry_continuation_bars() {
    let mut t = Tree::new();
    let r = t.insert(None, String::from("r"), String::from("d.rs:1"), plain(0));
    let a = t.insert(Some(r), String::from("a"), String::from("d.rs:2"), plain(0));
    let _b = t.insert(Some(r), String::from("b"), String::from("d.rs:3"), plain(0));
    let _x = t.insert(Some(a), String::from("x"), String::from("d.rs:4"), plain(0));
    let dump = t.render_at(0);
    assert_eq!(
        dump,
        "[d.rs:1] [span_id=0] [\"r\"] [elapsed=0ns]\n\
         ├── [d.rs:2] [span_id=1] [\"a\"] [elapsed=0ns]\n\
         │   └── [d.rs:4] [span_id=3] [\"x\"] [elapsed=0ns]\n\
         └── [d.rs:3] [span_id=2] [\"b\"] [elapsed=0ns]\n"
    );
}

#[test]
fn independent_roots_render_as_separate_blocks_in_order() {
    let mut t = Tree::new();
    t.insert(None, String::from("one"), String::from("r.rs:1"), plain(0));
    t.insert(None, String::from("two"), String::from("r.rs:2"), plain(0));
    let dump = t.render_at(0);
    assert_eq!(
        dump,
        "[r.rs:1] [span_id=0] [\"one\"] [elapsed=0ns]\n\
         [r.rs:2] [span_id=1] [\"two\"] [elapsed=0ns]\n"
    );
}

#[test]
fn subtree_rendering_shows_only_the_named_frame_and_below() {
    let mut t = Tree::new();
    let r = t.insert(None, String::from("r"), String::from("s.rs:1"), plain(0));
    let a = t.insert(Some(r), String::from("a"), String::from("s.rs:2"), plain(0));
    let _x = t.insert(Some(a), String::from("x"), String::from("s.rs:3"), plain(0));
    let dump = t.render_subtree_at(a, 0);
    assert_eq!(
        dump,
        "[s.rs:2] [span_id=1] [\"a\"] [elapsed=0ns]\n\
         └── [s.rs:3] [span_id=2] [\"x\"] [elapsed=0ns]\n"
    );
    assert_eq!(t.render_subtree_at(99, 0), "");
}

#[test]
fn rendering_into_a_buffer_appends() {
    let mut t = Tree::new();
    t.insert(None, String::from("r"), String::from("b.rs:1"), plain(0));
    let mut out = String::from("dump:\n");
    t.render_into(0, &mut out);
    assert_eq!(out, "dump:\n[b.rs:1] [span_id=0] [\"r\"] [elapsed=0ns]\n");
}

#[test]
fn visiting_enumerates_depth_first_in_order() {
    let mut t = Tree::new();
    let r = t.insert(None, String::from("r"), String::from("v.rs:1"), plain(0));
    let a = t.insert(Some(r), String::from("a"), String::from("v.rs:2"), plain(0));
    let b = t.insert(Some(r), String::from("b"), String::from("v.rs:3"), plain(0));
    let x = t.insert(Some(a), String::from("x"), String::from("v.rs:4"), plain(0));
    let entries = t.visit(r);
    assert_eq!(entries, vec![(r, 0, true), (a, 1, false), (x, 2, true), (b, 1, true)]);
    assert!(t.visit(99).is_empty());
}

#[test]
fn elapsed_time_is_never_negative() {
    let mut t = Tree::new();
    t.insert(None, String::from("r"), String::from("e.rs:1"), plain(100));
    let dump = t.render_at(40);
    assert_eq!(dump, "[e.rs:1] [span_id=0] [\"r\"] [elapsed=0ns]\n");
    let live = t.render();
    assert!(live.contains("[elapsed="));
}
