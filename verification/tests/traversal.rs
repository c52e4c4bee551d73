use linecount::process::{checked_process_directory, process_directory};
use linecount::tree::Node;
use linecount::walk::{next_leaf, walk_recursive, walk_shallow, Probe, Walker};

fn file(name: &str, content: &[u8]) -> Node {
    Node::File { name: name.to_string(), content: Some(content.to_vec()) }
}

fn locked(name: &str) -> Node {
    Node::File { name: name.to_string(), content: None }
}

fn dir(name: &str, entries: Vec<Node>) -> Node {
    Node::Dir { name: name.to_string(), entries }
}

fn other(name: &str) -> Node {
    Node::Other { name: name.to_string() }
}

fn name_of(node: &Node) -> &str {
    match node {
        Node::File { name, .. } => name,
        Node::Dir { name, .. } => name,
        Node::Other { name } => name,
    }
}

fn names(nodes: &[&Node]) -> Vec<String> {
    nodes.iter().map(|n| name_of(n).to_string()).collect()
}

fn sample() -> Node {
    dir(
        "top",
        vec![
            file("a.txt", b"x\n\ny\n"),
            file("b.bin", b"1\n2\n3\n4\n5\n"),
            dir("sub", vec![file("c.md", b"z\n")]),
        ],
    )
}

#[test]
fn shallow_counts_the_files_of_the_directory_only() {
    assert_eq!(process_directory(&sample(), 8192, false, false), 3);
    assert_eq!(process_directory(&sample(), 8192, true, false), 2);
}

#[test]
fn recursive_counts_the_files_of_all_levels() {
    assert_eq!(process_directory(&sample(), 8192, false, true), 4);
    assert_eq!(process_directory(&sample(), 8192, true, true), 3);
}

#[test]
fn directory_total_is_the_same_for_any_buffer() {
    for size in [1usize, 2, 1024, 64 * 1024] {
        assert_eq!(process_directory(&sample(), size, false, true), 4);
        assert_eq!(process_directory(&sample(), size, true, true), 3);
        assert_eq!(process_directory(&sample(), size, false, false), 3);
    }
    assert_eq!(process_directory(&sample(), 0, false, true), 0);
}

#[test]
fn shallow_walk_hands_out_the_entries_in_order() {
    let tree = sample();
    let found = walk_shallow(&tree);
    assert_eq!(names(&found), ["a.txt", "b.bin", "sub"]);
    assert!(matches!(found[2], Node::Dir { .. }));
}

#[test]
fn shallow_walk_does_not_depend_on_what_lies_deeper() {
    let flat = dir("top", vec![file("a.txt", b"1\n"), dir("sub", vec![])]);
    let deep = dir(
        "top",
        vec![
            file("a.txt", b"1\n"),
            dir("other", vec![file("b.txt", b"1\n2\n"), dir("d", vec![file("c.txt", b"\n")])]),
        ],
    );
    assert_eq!(process_directory(&flat, 8192, false, false), 1);
    assert_eq!(process_directory(&deep, 8192, false, false), 1);
    assert_eq!(process_directory(&deep, 8192, false, true), 4);
}

#[test]
fn recursive_walk_visits_the_last_entry_first() {
    let tree = dir(
        "top",
        vec![
            file("1", b""),
            dir("d", vec![file("2", b""), dir("e", vec![file("3", b"")]), file("4", b"")]),
            other("5"),
            dir("empty", vec![]),
            file("6", b""),
        ],
    );
    let found = walk_recursive(&tree);
    assert_eq!(names(&found), ["6", "5", "4", "3", "2", "1"]);
}

#[test]
fn recursive_walk_reaches_every_depth() {
    let mut tree = file("deep.txt", b"a\nb\n");
    for level in 0..200 {
        tree = dir(&format!("level{}", level), vec![tree]);
    }
    let found = walk_recursive(&tree);
    assert_eq!(names(&found), ["deep.txt"]);
    assert_eq!(process_directory(&tree, 8192, false, true), 2);
    assert_eq!(process_directory(&tree, 8192, false, false), 0);
}

#[test]
fn recursive_walk_of_a_file_yields_the_file() {
    let tree = file("lone.txt", b"1\n2\n");
    assert_eq!(names(&walk_recursive(&tree)), ["lone.txt"]);
    assert_eq!(process_directory(&tree, 8192, false, true), 2);
}

#[test]
fn empty_directory_counts_nothing() {
    let tree = dir("top", vec![]);
    assert!(walk_shallow(&tree).is_empty());
    assert!(walk_recursive(&tree).is_empty());
    assert_eq!(process_directory(&tree, 8192, false, false), 0);
    assert_eq!(process_directory(&tree, 8192, true, true), 0);
}

#[test]
fn what_is_no_regular_file_adds_nothing() {
    let tree = dir(
        "top",
        vec![other("pipe.txt"), locked("secret.txt"), file("plain", b"1\n"), file("ok.rs", b"1\n")],
    );
    assert_eq!(names(&walk_recursive(&tree)), ["ok.rs", "plain", "secret.txt", "pipe.txt"]);
    assert_eq!(process_directory(&tree, 8192, false, true), 1);
    assert_eq!(process_directory(&tree, 8192, false, false), 1);
}

#[test]
fn next_leaf_runs_to_the_next_node_that_is_no_directory() {
    let tree = dir("top", vec![file("a", b""), dir("d", vec![dir("e", vec![]), file("b", b"")])]);
    let mut walker = Walker::new(&tree);
    assert_eq!(next_leaf(&mut walker).map(name_of), Some("b"));
    assert_eq!(next_leaf(&mut walker).map(name_of), Some("a"));
    assert!(next_leaf(&mut walker).is_none());
    assert!(next_leaf(&mut walker).is_none());
}

#[test]
fn walker_keeps_pending_paths_last_in_first_out() {
    let mut walker = Walker::new("root".to_string());
    let root = walker.pop().unwrap();
    assert_eq!(root, "root");
    let listing = vec!["root/a".to_string(), "root/b".to_string(), "root/c".to_string()];
    assert!(walker.visit(root, Probe::Directory(listing)).is_none());
    let c = walker.pop().unwrap();
    assert_eq!(c, "root/c");
    assert_eq!(walker.visit(c, Probe::Leaf), Some("root/c".to_string()));
    let b = walker.pop().unwrap();
    assert_eq!(b, "root/b");
    assert!(walker.visit(b, Probe::Directory(vec!["root/b/x".to_string()])).is_none());
    assert_eq!(walker.pop(), Some("root/b/x".to_string()));
    assert_eq!(walker.pop(), Some("root/a".to_string()));
    assert_eq!(walker.pop(), None);
    assert_eq!(walker.pop(), None);
}

#[test]
fn directory_that_cannot_be_listed_is_passed_over() {
    let mut walker = Walker::new(1u32);
    let root = walker.pop().unwrap();
    assert!(walker.visit(root, Probe::Directory(vec![2, 3])).is_none());
    let three = walker.pop().unwrap();
    assert!(walker.visit(three, Probe::Directory(Vec::new())).is_none());
    assert_eq!(walker.pop(), Some(2));
    assert_eq!(walker.pop(), None);
}

#[test]
fn what_cannot_be_listed_is_passed_over() {
    let lone = file("lone.txt", b"1\n2\n");
    assert!(walk_shallow(&lone).is_empty());
    assert!(walk_shallow(&other("pipe")).is_empty());
    assert_eq!(process_directory(&lone, 8192, false, false), 0);
    assert_eq!(process_directory(&other("pipe"), 8192, false, false), 0);
    assert_eq!(process_directory(&other("pipe"), 8192, false, true), 0);
    let tree = dir("top", vec![dir("closed", vec![]), file("a.txt", b"1\n")]);
    assert_eq!(process_directory(&tree, 8192, false, true), 1);
}

#[test]
fn checked_form_gives_the_same_total() {
    for recursive in [false, true] {
        for skip_empty in [false, true] {
            assert_eq!(
                checked_process_directory(&sample(), 8192, skip_empty, recursive),
                Some(process_directory(&sample(), 8192, skip_empty, recursive))
            );
        }
    }
    assert_eq!(checked_process_directory(&sample(), 8192, false, false), Some(3));
    assert_eq!(checked_process_directory(&sample(), 8192, false, true), Some(4));
    assert_eq!(checked_process_directory(&sample(), 8192, true, true), Some(3));
    assert_eq!(checked_process_directory(&file("x.rs", b"a\nb"), 8192, true, true), Some(2));
    assert_eq!(checked_process_directory(&file("x.rs", b"a\nb"), 8192, true, false), Some(0));
}

#[test]
fn each_file_is_counted_once() {
    let tree = dir(
        "top",
        vec![
            file("a.txt", b"1\n"),
            dir("x", vec![file("a.txt", b"1\n2\n"), dir("y", vec![file("a.txt", b"1\n2\n3\n")])]),
            dir("z", vec![file("a.txt", b"1\n2\n3\n4\n")]),
        ],
    );
    assert_eq!(walk_recursive(&tree).len(), 4);
    assert_eq!(process_directory(&tree, 8192, false, true), 10);
    assert_eq!(process_directory(&tree, 8192, false, false), 1);
}
