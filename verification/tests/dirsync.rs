use diffcopy::dirsync::merge_dir;
use diffcopy::dirsync::MergeError;
use diffcopy::hashing::Fnv1a64;
use diffcopy::tree::Entry;
use diffcopy::tree::Node;

fn file(name: &str, content: &str) -> Entry {
    Entry {
        name: name.as_bytes().to_vec(),
        node: Node::File { content: content.as_bytes().to_vec() },
    }
}

fn dir(name: &str, children: Vec<Entry>) -> Entry {
    Entry { name: name.as_bytes().to_vec(), node: Node::Dir { children } }
}

fn find<'a>(entries: &'a [Entry], name: &str) -> Option<&'a Node> {
    entries
        .iter()
        .find(|e| e.name.as_slice() == name.as_bytes())
        .map(|e| &e.node)
}

fn content_of<'a>(node: &'a Node) -> &'a [u8] {
    match node {
        Node::File { content } => content.as_slice(),
        Node::Dir { .. } => panic!("expected a file"),
    }
}

fn children_of<'a>(node: &'a Node) -> &'a [Entry] {
    match node {
        Node::Dir { children } => children.as_slice(),
        Node::File { .. } => panic!("expected a directory"),
    }
}

#[test]
fn test_dir_diff() {
    let source = vec![
        file("a.txt", "hello"),
        file("b.txt", "rust"),
        dir("sub", vec![file("c.txt", "subdir file")]),
    ];
    let dest = vec![file("a.txt", "hello"), file("b.txt", "world")];
    let merged = merge_dir::<Fnv1a64>(&source, dest).unwrap();

    assert_eq!(content_of(find(&merged, "a.txt").unwrap()), b"hello");
    assert_eq!(content_of(find(&merged, "b.txt").unwrap()), b"rust");
    let sub = children_of(find(&merged, "sub").unwrap());
    assert_eq!(content_of(find(sub, "c.txt").unwrap()), b"subdir file");
}

#[test]
fn test_dir_diff_to_nonexistent() {
    let source = vec![file("a.txt", "hello")];
    let merged = merge_dir::<Fnv1a64>(&source, Vec::new()).unwrap();
    assert_eq!(merged.len(), 1);
    assert_eq!(content_of(find(&merged, "a.txt").unwrap()), b"hello");
}

#[test]
fn test_dir_diff_from_empty() {
    let source: Vec<Entry> = Vec::new();
    let dest = vec![file("a.txt", "hello")];
    let merged = merge_dir::<Fnv1a64>(&source, dest).unwrap();
    assert_eq!(merged.len(), 1);
    assert_eq!(content_of(find(&merged, "a.txt").unwrap()), b"hello");
}

#[test]
fn test_dir_diff_to_has_extra_files() {
    let source = vec![file("a.txt", "hello")];
    let dest = vec![file("extra.txt", "extra")];
    let merged = merge_dir::<Fnv1a64>(&source, dest).unwrap();
    assert_eq!(content_of(find(&merged, "extra.txt").unwrap()), b"extra");
    assert_eq!(content_of(find(&merged, "a.txt").unwrap()), b"hello");
}

#[test]
fn test_dir_diff_deeply_nested() {
    let source = vec![dir("a", vec![dir("b", vec![dir("c", vec![file("d.txt", "deep")])])])];
    let merged = merge_dir::<Fnv1a64>(&source, Vec::new()).unwrap();
    let a = children_of(find(&merged, "a").unwrap());
    let b = children_of(find(a, "b").unwrap());
    let c = children_of(find(b, "c").unwrap());
    assert_eq!(content_of(find(c, "d.txt").unwrap()), b"deep");
}

#[test]
fn nested_update_and_preservation() {
    let source = vec![dir("sub", vec![file("new.txt", "new"), file("old.txt", "fresh")])];
    let dest = vec![dir("sub", vec![file("old.txt", "stale"), file("keep.txt", "kept")])];
    let merged = merge_dir::<Fnv1a64>(&source, dest).unwrap();
    let sub = children_of(find(&merged, "sub").unwrap());
    assert_eq!(content_of(find(sub, "old.txt").unwrap()), b"fresh");
    assert_eq!(content_of(find(sub, "new.txt").unwrap()), b"new");
    assert_eq!(content_of(find(sub, "keep.txt").unwrap()), b"kept");
}

#[test]
fn source_file_over_dest_dir_is_a_clash() {
    let source = vec![file("x", "data")];
    let dest = vec![dir("x", Vec::new())];
    let result = merge_dir::<Fnv1a64>(&source, dest);
    assert_eq!(result.unwrap_err(), MergeError::KindClash);
}

#[test]
fn source_dir_with_children_over_dest_file_is_a_clash() {
    let source = vec![dir("x", vec![file("y.txt", "data")])];
    let dest = vec![file("x", "plain")];
    let result = merge_dir::<Fnv1a64>(&source, dest);
    assert_eq!(result.unwrap_err(), MergeError::KindClash);
}

#[test]
fn childless_source_dir_over_dest_file_changes_nothing() {
    let source = vec![dir("x", Vec::new())];
    let dest = vec![file("x", "plain")];
    let merged = merge_dir::<Fnv1a64>(&source, dest).unwrap();
    assert_eq!(merged.len(), 1);
    assert_eq!(content_of(find(&merged, "x").unwrap()), b"plain");
}

#[test]
fn deep_clash_aborts_the_merge() {
    let source = vec![dir("sub", vec![file("x", "data")])];
    let dest = vec![dir("sub", vec![dir("x", Vec::new())])];
    let result = merge_dir::<Fnv1a64>(&source, dest);
    assert_eq!(result.unwrap_err(), MergeError::KindClash);
}
