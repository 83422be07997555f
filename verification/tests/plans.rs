use component_monitor::model::{Kind, OpKind};
use component_monitor::path::RelPath;
use component_monitor::plan::{cleanup_plan, copy_op, copy_plan, populate_plan, removal_op, Entry, Op};

const SENTINEL: &[u8] = b"sentinel";

fn path(parts: &[&str]) -> RelPath {
    RelPath::from_parts(parts.iter().map(|p| p.as_bytes().to_vec()).collect())
}

fn entry(parts: &[&str], kind: Kind) -> Entry {
    Entry { path: path(parts), kind }
}

fn shape(plan: &[Op]) -> Vec<(OpKind, String)> {
    plan.iter()
        .map(|op| {
            let parts: Vec<String> =
                op.path.parts.iter().map(|p| String::from_utf8(p.clone()).unwrap()).collect();
            (op.kind, parts.join("/"))
        })
        .collect()
}

fn step(kind: OpKind, at: &str) -> (OpKind, String) {
    (kind, at.to_string())
}

#[test]
fn removal_op_goes_by_kind() {
    assert_eq!(removal_op(&entry(&["d"], Kind::Dir)).kind, OpKind::RemoveTree);
    assert_eq!(removal_op(&entry(&["f"], Kind::File)).kind, OpKind::RemoveFile);
    assert_eq!(removal_op(&entry(&["l"], Kind::Link)).kind, OpKind::RemoveFile);
    assert_eq!(removal_op(&entry(&["d"], Kind::Dir)).path.parts, vec![b"d".to_vec()]);
}

#[test]
fn copy_op_goes_by_kind() {
    assert_eq!(copy_op(&entry(&["d"], Kind::Dir)).kind, OpKind::CreateDir);
    assert_eq!(copy_op(&entry(&["f"], Kind::File)).kind, OpKind::CopyFile);
    assert_eq!(copy_op(&entry(&["l"], Kind::Link)).kind, OpKind::CopyLink);
    let op = copy_op(&entry(&["d", "f"], Kind::File));
    assert_eq!(op.path.parts, vec![b"d".to_vec(), b"f".to_vec()]);
}

#[test]
fn cleanup_plan_removes_sentinel_first() {
    let listing = vec![
        entry(&["a.txt"], Kind::File),
        entry(&["subdir"], Kind::Dir),
        entry(&["sentinel"], Kind::File),
        entry(&["link"], Kind::Link),
    ];
    let plan = cleanup_plan(&listing, SENTINEL);
    assert_eq!(
        shape(&plan),
        vec![
            step(OpKind::RemoveFile, "sentinel"),
            step(OpKind::RemoveFile, "a.txt"),
            step(OpKind::RemoveTree, "subdir"),
            step(OpKind::RemoveFile, "link"),
        ]
    );
}

#[test]
fn cleanup_plan_without_sentinel_keeps_listing_order() {
    let listing = vec![entry(&["b"], Kind::Dir), entry(&["a"], Kind::File)];
    let plan = cleanup_plan(&listing, SENTINEL);
    assert_eq!(shape(&plan), vec![step(OpKind::RemoveTree, "b"), step(OpKind::RemoveFile, "a")]);
}

#[test]
fn cleanup_plan_removes_a_directory_that_bears_the_sentinel_name() {
    let listing = vec![entry(&["x"], Kind::File), entry(&["sentinel"], Kind::Dir)];
    let plan = cleanup_plan(&listing, SENTINEL);
    assert_eq!(
        shape(&plan),
        vec![step(OpKind::RemoveTree, "sentinel"), step(OpKind::RemoveFile, "x")]
    );
}

#[test]
fn cleanup_plan_of_empty_listing_is_empty() {
    assert!(cleanup_plan(&Vec::new(), SENTINEL).is_empty());
}

#[test]
fn copy_plan_skips_sentinel() {
    let walk = vec![
        entry(&["sentinel"], Kind::File),
        entry(&["a.txt"], Kind::File),
        entry(&["subdir"], Kind::Dir),
        entry(&["subdir", "b.txt"], Kind::File),
        entry(&["subdir", "latest"], Kind::Link),
    ];
    let plan = copy_plan(&walk, SENTINEL);
    assert_eq!(
        shape(&plan),
        vec![
            step(OpKind::CopyFile, "a.txt"),
            step(OpKind::CreateDir, "subdir"),
            step(OpKind::CopyFile, "subdir/b.txt"),
            step(OpKind::CopyLink, "subdir/latest"),
        ]
    );
}

#[test]
fn copy_plan_never_names_the_sentinel() {
    let walk = vec![
        entry(&["a"], Kind::Dir),
        entry(&["sentinel"], Kind::File),
        entry(&["a", "b"], Kind::File),
        entry(&["sentinel"], Kind::Link),
        entry(&["z"], Kind::File),
    ];
    let plan = copy_plan(&walk, SENTINEL);
    assert_eq!(plan.len(), 3);
    assert!(plan.iter().all(|op| op.path.parts != vec![SENTINEL.to_vec()]));
}

#[test]
fn copy_plan_keeps_a_nested_file_named_like_the_sentinel() {
    let walk = vec![entry(&["d"], Kind::Dir), entry(&["d", "sentinel"], Kind::File)];
    let plan = copy_plan(&walk, SENTINEL);
    assert_eq!(
        shape(&plan),
        vec![step(OpKind::CreateDir, "d"), step(OpKind::CopyFile, "d/sentinel")]
    );
}

#[test]
fn populate_plan_cleans_copies_and_ends_with_sentinel() {
    let listing = vec![entry(&["old"], Kind::Dir), entry(&["sentinel"], Kind::File)];
    let walk = vec![
        entry(&["sentinel"], Kind::File),
        entry(&["new"], Kind::Dir),
        entry(&["new", "f"], Kind::File),
    ];
    let plan = populate_plan(&listing, &walk, SENTINEL);
    assert_eq!(
        shape(&plan),
        vec![
            step(OpKind::RemoveFile, "sentinel"),
            step(OpKind::RemoveTree, "old"),
            step(OpKind::CreateDir, "new"),
            step(OpKind::CopyFile, "new/f"),
            step(OpKind::CopyFile, "sentinel"),
        ]
    );
}

#[test]
fn populate_plan_for_empty_listings_copies_only_the_sentinel() {
    let plan = populate_plan(&Vec::new(), &Vec::new(), SENTINEL);
    assert_eq!(shape(&plan), vec![step(OpKind::CopyFile, "sentinel")]);
}
