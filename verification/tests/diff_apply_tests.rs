use treediff::apply::{apply_update, ApplyError};
use treediff::diff::gen_diff;
use treediff::record::{ChangeType, FileDiff};
use treediff::tree::{Node, Tree, TreeEntry};

fn file(name: &[u8], contents: &[u8]) -> TreeEntry {
    TreeEntry { name: name.to_vec(), node: Node::File(contents.to_vec()) }
}

fn dir(name: &[u8], entries: Vec<TreeEntry>) -> TreeEntry {
    TreeEntry { name: name.to_vec(), node: Node::Dir(Tree { entries }) }
}

fn tree(entries: Vec<TreeEntry>) -> Tree {
    Tree { entries }
}

fn change(kind: ChangeType, path: &[u8], contents: &[u8]) -> FileDiff {
    FileDiff { path: path.to_vec(), change_type: kind, change_contents: contents.to_vec() }
}

fn flatten_into(t: &Tree, prefix: &[u8], out: &mut Vec<(Vec<u8>, Vec<u8>)>) {
    for e in &t.entries {
        let mut p = prefix.to_vec();
        if !p.is_empty() {
            p.push(b'/');
        }
        p.extend_from_slice(&e.name);
        match &e.node {
            Node::File(c) => out.push((p, c.clone())),
            Node::Dir(sub) => flatten_into(sub, &p, out),
        }
    }
}

/// All (path, contents) pairs in the tree, in walk order.
fn flatten(t: &Tree) -> Vec<(Vec<u8>, Vec<u8>)> {
    let mut out = Vec::new();
    flatten_into(t, b"", &mut out);
    out
}

fn sorted(mut v: Vec<(Vec<u8>, Vec<u8>)>) -> Vec<(Vec<u8>, Vec<u8>)> {
    v.sort();
    v
}

#[test]
fn added_file_yields_one_add_record() {
    let a = tree(vec![file(b"a.txt", b"hello")]);
    let b = tree(vec![file(b"a.txt", b"hello"), file(b"b.txt", b"world")]);
    let records = gen_diff(&a, &b, &Vec::new());
    assert_eq!(records, vec![change(ChangeType::Add, b"b.txt", b"world")]);
}

#[test]
fn modified_file_yields_one_modify_record() {
    let a = tree(vec![file(b"a.txt", b"hello")]);
    let b = tree(vec![file(b"a.txt", b"goodbye")]);
    let records = gen_diff(&a, &b, &Vec::new());
    assert_eq!(records, vec![change(ChangeType::Modify, b"a.txt", b"goodbye")]);
}

#[test]
fn removed_file_yields_one_delete_record() {
    let a = tree(vec![file(b"a.txt", b"hello")]);
    let b = tree(Vec::new());
    let records = gen_diff(&a, &b, &Vec::new());
    assert_eq!(records, vec![change(ChangeType::Delete, b"a.txt", b"hello")]);
}

fn nested_sample_tree() -> Tree {
    tree(vec![
        file(b"a.txt", b"hello"),
        dir(b"sub", vec![file(b"inner.txt", b"nested"), dir(b"deeper", vec![file(b"x", b"1")])]),
    ])
}

#[test]
fn identical_trees_yield_no_records() {
    let records = gen_diff(&nested_sample_tree(), &nested_sample_tree(), &Vec::new());
    assert!(records.is_empty());
}

#[test]
fn ignored_directory_yields_no_records() {
    let a = tree(vec![
        file(b"keep.txt", b"same"),
        dir(b"node_modules", vec![file(b"pkg.js", b"old")]),
    ]);
    let b = tree(vec![
        file(b"keep.txt", b"same"),
        dir(b"node_modules", vec![file(b"pkg.js", b"new"), file(b"extra.js", b"x")]),
    ]);
    let ignore = vec![b"node_modules".to_vec()];
    let records = gen_diff(&a, &b, &ignore);
    assert!(records.is_empty());
}

#[test]
fn hidden_directory_yields_no_records() {
    let a = tree(vec![file(b"keep.txt", b"same"), dir(b".git", vec![file(b"HEAD", b"ref1")])]);
    let b = tree(vec![file(b"keep.txt", b"same"), dir(b".git", vec![file(b"HEAD", b"ref2")])]);
    // No ignore list: the name alone hides the directory.
    let records = gen_diff(&a, &b, &Vec::new());
    assert!(records.is_empty());
}

#[test]
fn hidden_file_is_still_diffed() {
    // Only directories are skipped for a leading dot; hidden files count.
    let a = tree(vec![file(b".gitignore", b"target")]);
    let b = tree(vec![file(b".gitignore", b"target\ndist")]);
    let records = gen_diff(&a, &b, &Vec::new());
    assert_eq!(records, vec![change(ChangeType::Modify, b".gitignore", b"target\ndist")]);
}

#[test]
fn nested_changes_use_slash_paths_and_walk_order() {
    let a = tree(vec![
        dir(b"src", vec![file(b"main.rs", b"fn main() {}"), file(b"gone.rs", b"old")]),
        file(b"README", b"v1"),
    ]);
    let b = tree(vec![
        dir(b"src", vec![file(b"main.rs", b"fn main() { run(); }")]),
        file(b"README", b"v1"),
        dir(b"docs", vec![file(b"guide.md", b"hi")]),
    ]);
    let records = gen_diff(&a, &b, &Vec::new());
    assert_eq!(
        records,
        vec![
            change(ChangeType::Modify, b"src/main.rs", b"fn main() { run(); }"),
            change(ChangeType::Delete, b"src/gone.rs", b"old"),
            change(ChangeType::Add, b"docs/guide.md", b"hi"),
        ]
    );
}

#[test]
fn apply_add_creates_parent_directories() {
    let mut target = tree(Vec::new());
    let records = vec![change(ChangeType::Add, b"a/b/c.txt", b"deep")];
    assert_eq!(apply_update(&mut target, &records), Ok(()));
    assert_eq!(flatten(&target), vec![(b"a/b/c.txt".to_vec(), b"deep".to_vec())]);
}

#[test]
fn apply_add_overwrites_existing_file() {
    let mut target = tree(vec![file(b"a.txt", b"old")]);
    let records = vec![change(ChangeType::Add, b"a.txt", b"new")];
    assert_eq!(apply_update(&mut target, &records), Ok(()));
    assert_eq!(flatten(&target), vec![(b"a.txt".to_vec(), b"new".to_vec())]);
}

#[test]
fn apply_modify_overwrites_without_creating_directories() {
    let mut target = tree(vec![dir(b"d", vec![file(b"f", b"1")])]);
    assert_eq!(apply_update(&mut target, &vec![change(ChangeType::Modify, b"d/f", b"2")]), Ok(()));
    assert_eq!(flatten(&target), vec![(b"d/f".to_vec(), b"2".to_vec())]);

    // A missing parent directory is not created for Modify: the run fails.
    let mut target2 = tree(Vec::new());
    assert_eq!(
        apply_update(&mut target2, &vec![change(ChangeType::Modify, b"no/dir.txt", b"x")]),
        Err(ApplyError::FilesystemOperationFailed)
    );
    assert!(flatten(&target2).is_empty());
}

#[test]
fn apply_delete_removes_the_file_and_keeps_the_directory() {
    let mut target = tree(vec![dir(b"d", vec![file(b"f", b"1"), file(b"g", b"2")])]);
    assert_eq!(apply_update(&mut target, &vec![change(ChangeType::Delete, b"d/f", b"1")]), Ok(()));
    assert_eq!(flatten(&target), vec![(b"d/g".to_vec(), b"2".to_vec())]);
    // The directory itself stays, even when its last file goes.
    assert_eq!(apply_update(&mut target, &vec![change(ChangeType::Delete, b"d/g", b"2")]), Ok(()));
    assert!(flatten(&target).is_empty());
    assert_eq!(target.entries.len(), 1);
}

#[test]
fn apply_delete_of_missing_file_fails() {
    let mut target = tree(vec![file(b"a.txt", b"x")]);
    assert_eq!(
        apply_update(&mut target, &vec![change(ChangeType::Delete, b"b.txt", b"")]),
        Err(ApplyError::FilesystemOperationFailed)
    );
}

#[test]
fn apply_stops_at_first_failure_keeping_earlier_changes() {
    let mut target = tree(Vec::new());
    let records = vec![
        change(ChangeType::Add, b"kept.txt", b"applied"),
        change(ChangeType::Delete, b"missing.txt", b""),
        change(ChangeType::Add, b"never.txt", b"not applied"),
    ];
    assert_eq!(apply_update(&mut target, &records), Err(ApplyError::FilesystemOperationFailed));
    assert_eq!(flatten(&target), vec![(b"kept.txt".to_vec(), b"applied".to_vec())]);
}

fn inverse_before_tree() -> Tree {
    tree(vec![
        file(b"same.txt", b"unchanged"),
        file(b"gone.txt", b"bye"),
        dir(b"src", vec![file(b"lib.rs", b"v1"), file(b"old.rs", b"dead")]),
    ])
}

#[test]
fn applying_a_diff_transforms_the_before_tree_into_the_after_tree() {
    let a = inverse_before_tree();
    let b = tree(vec![
        file(b"same.txt", b"unchanged"),
        dir(b"src", vec![file(b"lib.rs", b"v2"), dir(b"util", vec![file(b"new.rs", b"fresh")])]),
        file(b"added.txt", b"hi"),
    ]);
    let records = gen_diff(&a, &b, &Vec::new());
    let mut target = inverse_before_tree();
    assert_eq!(apply_update(&mut target, &records), Ok(()));
    // Same files as B; empty directories left behind are not removed, so
    // compare the file sets, not the trees.
    assert_eq!(sorted(flatten(&target)), sorted(flatten(&b)));
}
