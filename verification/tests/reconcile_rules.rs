use component_monitor::path::RelPath;
use component_monitor::reconcile::{cleanup, populate};
use component_monitor::sentinel::{assess, Reading, Verdict};
use component_monitor::tree::{Node, Tree};

const SENTINEL: &[u8] = b".ready";

fn path(parts: &[&str]) -> RelPath {
    RelPath::from_parts(parts.iter().map(|p| p.as_bytes().to_vec()).collect())
}

fn file(bytes: &[u8]) -> Node {
    Node::File(bytes.to_vec())
}

fn source_with_sentinel(bytes: &[u8]) -> Tree {
    let mut t = Tree::new();
    assert!(t.put(path(&["lib"]), Node::Dir));
    assert!(t.put(path(&["lib", "driver.ko"]), file(b"\x7fELF")));
    assert!(t.put(path(&["lib", "current"]), Node::Link(b"driver.ko".to_vec())));
    assert!(t.put(path(&[".ready"]), file(bytes)));
    t
}

fn populated_target() -> Tree {
    let mut t = Tree::new();
    assert!(t.put(path(&[".ready"]), file(b"old")));
    assert!(t.put(path(&["stale"]), Node::Dir));
    assert!(t.put(path(&["stale", "x"]), file(b"x")));
    t
}

#[test]
fn assess_reports_missing_source_sentinel() {
    let held = Reading::Content(b"v1".to_vec());
    assert_eq!(assess(&Reading::Absent, &held), Verdict::NotReady);
    assert_eq!(assess(&Reading::Absent, &Reading::Absent), Verdict::NotReady);
}

#[test]
fn assess_reports_unreadable_source_sentinel() {
    let held = Reading::Content(b"v1".to_vec());
    assert_eq!(assess(&Reading::Unreadable, &held), Verdict::Unreadable);
}

#[test]
fn assess_reports_blank_source_sentinel() {
    let held = Reading::Content(b"v1".to_vec());
    assert_eq!(assess(&Reading::Content(Vec::new()), &held), Verdict::Blank);
    assert_eq!(assess(&Reading::Content(b" \t\n\x0c\r".to_vec()), &held), Verdict::Blank);
    assert_eq!(assess(&Reading::Content(b"\n".to_vec()), &Reading::Absent), Verdict::Blank);
}

#[test]
fn assess_takes_vertical_tab_for_content() {
    let verdict = assess(&Reading::Content(b"\x0b".to_vec()), &Reading::Absent);
    assert_eq!(verdict, Verdict::Stale);
}

#[test]
fn assess_compares_bytes_untrimmed() {
    let source = Reading::Content(b"v1\n".to_vec());
    assert_eq!(assess(&source, &Reading::Content(b"v1\n".to_vec())), Verdict::Current);
    assert_eq!(assess(&source, &Reading::Content(b"v1".to_vec())), Verdict::Stale);
    assert_eq!(assess(&source, &Reading::Content(b"v1\n\n".to_vec())), Verdict::Stale);
}

#[test]
fn assess_takes_missing_or_unreadable_target_for_stale() {
    let source = Reading::Content(b"v1".to_vec());
    assert_eq!(assess(&source, &Reading::Absent), Verdict::Stale);
    assert_eq!(assess(&source, &Reading::Unreadable), Verdict::Stale);
}

#[test]
fn verdict_calls_for_rebuild_only_when_stale() {
    assert!(Verdict::Stale.calls_for_rebuild());
    assert!(!Verdict::Current.calls_for_rebuild());
    assert!(!Verdict::Blank.calls_for_rebuild());
    assert!(!Verdict::NotReady.calls_for_rebuild());
    assert!(!Verdict::Unreadable.calls_for_rebuild());
}

#[test]
fn populate_twice_equals_populate_once() {
    let source = source_with_sentinel(b"v7");
    let mut once = populated_target();
    populate(&source, SENTINEL, &mut once);
    let mut twice = populated_target();
    populate(&source, SENTINEL, &mut twice);
    let second = populate(&source, SENTINEL, &mut twice).verdict;
    assert_eq!(second, Verdict::Current);
    assert!(once.same_as(&twice));
    assert!(twice.same_as(&source));
}

#[test]
fn populate_replaces_target_on_changed_sentinel() {
    let source = source_with_sentinel(b"new");
    let mut target = populated_target();
    let verdict = populate(&source, SENTINEL, &mut target).verdict;
    assert_eq!(verdict, Verdict::Stale);
    assert!(matches!(target.read(SENTINEL), Reading::Content(b) if b == b"new"));
    assert!(target.get(&path(&["stale"])).is_none());
    assert!(target.get(&path(&["stale", "x"])).is_none());
    assert!(matches!(target.get(&path(&["lib"])), Some(Node::Dir)));
    assert!(matches!(target.get(&path(&["lib", "driver.ko"])), Some(Node::File(b)) if b == b"\x7fELF"));
    assert!(matches!(target.get(&path(&["lib", "current"])), Some(Node::Link(t)) if t == b"driver.ko"));
    assert!(target.same_as(&source));
}

#[test]
fn populate_keeps_target_on_blank_sentinel() {
    for blank in [&b""[..], &b" "[..], &b"\n\n"[..], &b"\t \r\n"[..]] {
        let source = source_with_sentinel(blank);
        let mut target = populated_target();
        let outcome = populate(&source, SENTINEL, &mut target);
        assert_eq!(outcome.verdict, Verdict::Blank);
        assert!(outcome.steps.is_empty());
        assert!(target.same_as(&populated_target()));
    }
}

#[test]
fn populate_keeps_target_without_source_sentinel() {
    let mut source = Tree::new();
    assert!(source.put(path(&["half"]), file(b"written")));
    let mut target = populated_target();
    let verdict = populate(&source, SENTINEL, &mut target).verdict;
    assert_eq!(verdict, Verdict::NotReady);
    assert!(target.same_as(&populated_target()));
}

#[test]
fn populate_keeps_target_when_sentinel_is_a_directory() {
    let mut source = Tree::new();
    assert!(source.put(path(&[".ready"]), Node::Dir));
    let mut target = populated_target();
    let verdict = populate(&source, SENTINEL, &mut target).verdict;
    assert_eq!(verdict, Verdict::Unreadable);
    assert!(target.same_as(&populated_target()));
}

#[test]
fn populate_never_changes_source() {
    let source = source_with_sentinel(b"v7");
    let mut target = populated_target();
    populate(&source, SENTINEL, &mut target);
    assert!(source.same_as(&source_with_sentinel(b"v7")));
}

#[test]
fn populate_copies_nested_sentinel_name() {
    let mut source = source_with_sentinel(b"v7");
    assert!(source.put(path(&["lib", ".ready"]), file(b"inner")));
    let mut target = Tree::new();
    populate(&source, SENTINEL, &mut target);
    assert!(matches!(target.get(&path(&["lib", ".ready"])), Some(Node::File(b)) if b == b"inner"));
    assert!(target.same_as(&source));
}

#[test]
fn cleanup_empties_target() {
    let mut target = populated_target();
    cleanup(&mut target, SENTINEL);
    assert!(target.is_empty());
    assert!(target.list().is_empty());
    assert!(target.get(&path(&[".ready"])).is_none());
}

#[test]
fn cleanup_empties_target_without_sentinel() {
    let mut target = Tree::new();
    assert!(target.put(path(&["d"]), Node::Dir));
    assert!(target.put(path(&["d", "e"]), Node::Dir));
    assert!(target.put(path(&["d", "e", "f"]), file(b"f")));
    assert!(target.put(path(&["l"]), Node::Link(b"d".to_vec())));
    cleanup(&mut target, SENTINEL);
    assert!(target.is_empty());
}

#[test]
fn cleanup_of_empty_target_is_a_no_op() {
    let mut target = Tree::new();
    cleanup(&mut target, SENTINEL);
    assert!(target.is_empty());
}
