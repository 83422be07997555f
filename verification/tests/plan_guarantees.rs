use component_monitor::event::{dispatch, watch_mask, Dispatcher, Event, Reaction};
use component_monitor::model::OpKind;
use component_monitor::path::RelPath;
use component_monitor::plan::{cleanup_plan, populate_plan, Op};
use component_monitor::sentinel::Reading;
use component_monitor::tree::{Node, Tree};

const SENTINEL: &[u8] = b"sentinel";

fn path(parts: &[&str]) -> RelPath {
    RelPath::from_parts(parts.iter().map(|p| p.as_bytes().to_vec()).collect())
}

fn file(text: &str) -> Node {
    Node::File(text.as_bytes().to_vec())
}

fn source() -> Tree {
    let mut t = Tree::new();
    assert!(t.put(path(&["bin"]), Node::Dir));
    assert!(t.put(path(&["bin", "tool"]), file("#!")));
    assert!(t.put(path(&["sentinel"]), file("v2")));
    assert!(t.put(path(&["bin", "alias"]), Node::Link(b"tool".to_vec())));
    assert!(t.put(path(&["notes"]), file("n")));
    t
}

fn stale_target() -> Tree {
    let mut t = Tree::new();
    assert!(t.put(path(&["old"]), Node::Dir));
    assert!(t.put(path(&["old", "deep"]), Node::Dir));
    assert!(t.put(path(&["old", "deep", "f"]), file("f")));
    assert!(t.put(path(&["sentinel"]), file("v1")));
    assert!(t.put(path(&["bin"]), file("not a directory")));
    t
}

fn shows(t: &Tree, text: &[u8]) -> bool {
    matches!(t.read(SENTINEL), Reading::Content(b) if b == text)
}

#[test]
fn rebuild_shows_fresh_sentinel_only_when_complete() {
    let source = source();
    let mut target = stale_target();
    let plan = populate_plan(&target.list(), &source.walk(), SENTINEL);
    assert!(shows(&target, b"v1"));
    let last = plan.len() - 1;
    for (i, op) in plan.iter().enumerate() {
        assert!(!shows(&target, b"v2"));
        if i > 0 {
            assert!(matches!(target.read(SENTINEL), Reading::Absent));
        }
        assert!(target.apply(&source, op));
        assert_eq!(target.same_as(&source), i == last);
    }
    assert!(shows(&target, b"v2"));
}

#[test]
fn rebuild_from_any_target_has_no_failures() {
    let from = source();
    for mut target in [Tree::new(), stale_target(), source()] {
        let plan = populate_plan(&target.list(), &from.walk(), SENTINEL);
        assert_eq!(target.run(&from, &plan), 0);
        assert!(target.same_as(&from));
    }
}

#[test]
fn cleanup_plan_has_no_failures_and_leaves_nothing() {
    let nothing = Tree::new();
    for mut target in [Tree::new(), stale_target(), source()] {
        let plan = cleanup_plan(&target.list(), SENTINEL);
        assert_eq!(plan.len(), target.list().len());
        assert_eq!(target.run(&nothing, &plan), 0);
        assert!(target.is_empty());
    }
}

#[test]
fn failed_step_leaves_the_rest_of_the_run_as_it_is() {
    let source = source();
    let good = |kind: OpKind, parts: &[&str]| Op { kind, path: path(parts) };
    let with_failure = vec![
        good(OpKind::CreateDir, &["bin"]),
        good(OpKind::CopyFile, &["missing", "file"]),
        good(OpKind::CopyFile, &["bin", "tool"]),
    ];
    let without_failure =
        vec![good(OpKind::CreateDir, &["bin"]), good(OpKind::CopyFile, &["bin", "tool"])];
    let mut a = Tree::new();
    let mut b = Tree::new();
    assert_eq!(a.run(&source, &with_failure), 1);
    assert_eq!(b.run(&source, &without_failure), 0);
    assert!(a.same_as(&b));
}

#[test]
fn two_batches_answer_as_their_concatenation() {
    let events = |masks: &[(u32, Option<&[u8]>)]| -> Vec<Event> {
        masks.iter().map(|(mask, name)| Event { mask: *mask, name: name.map(|n| n.to_vec()) }).collect()
    };
    let first = [(0x8, Some(SENTINEL)), (0x200, Some(&b"x"[..]))];
    let second = [(0x200, Some(SENTINEL)), (0x400, None), (0x8, Some(SENTINEL))];
    let mut whole = first.to_vec();
    whole.extend_from_slice(&second);

    let mut split = Dispatcher::new();
    let mut answers = split.handle_all(&events(&first), SENTINEL);
    answers.extend(split.handle_all(&events(&second), SENTINEL));

    let mut joined = Dispatcher::new();
    assert_eq!(joined.handle_all(&events(&whole), SENTINEL), answers);
    assert_eq!(joined.phase(), split.phase());
}

#[test]
fn every_answered_event_is_watched() {
    for bit in 0..32 {
        let mask = 1u32 << bit;
        for name in [None, Some(SENTINEL.to_vec()), Some(b"other".to_vec())] {
            let event = Event { mask, name };
            if dispatch(&event, SENTINEL) != Reaction::Ignore {
                assert_ne!(mask & watch_mask(), 0);
            }
        }
    }
}
