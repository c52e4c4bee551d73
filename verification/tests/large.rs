use linecount::counter::count_lines;
use linecount::process::{checked_process_directory, checked_process_file};
use linecount::tree::Node;

const BUFFER: usize = 1 << 24;

fn one_more_than_fits() -> Vec<u8> {
    vec![b'\n'; i32::MAX as usize + 1]
}

fn tree_with(big: Vec<u8>) -> Node {
    Node::Dir {
        name: "top".to_string(),
        entries: vec![
            Node::File { name: "big.log".to_string(), content: Some(big) },
            Node::File { name: "one.txt".to_string(), content: Some(b"1\n".to_vec()) },
            Node::File { name: "skipped.bin".to_string(), content: Some(b"1\n".to_vec()) },
        ],
    }
}

#[test]
fn count_beyond_the_limit_is_none() {
    let data = one_more_than_fits();
    assert_eq!(count_lines(&data, BUFFER, false), None);
    assert_eq!(count_lines(&data, 0, false), Some(0));
}

#[test]
fn count_at_the_limit_is_given() {
    let mut data = one_more_than_fits();
    data[0] = b'x';
    assert_eq!(checked_process_file("big.log", Some(&data), BUFFER, false), Some(i32::MAX));
}

#[test]
fn large_file_beyond_the_limit_adds_none() {
    let data = one_more_than_fits();
    assert_eq!(checked_process_file("big.log", Some(&data), BUFFER, false), None);
    assert_eq!(checked_process_file("big.bin", Some(&data), BUFFER, false), Some(0));
    assert_eq!(checked_process_file("big.log", Some(&data), 0, false), Some(0));
}

#[test]
fn total_beyond_the_limit_is_none() {
    let mut data = one_more_than_fits();
    data[0] = b'x';
    let tree = tree_with(data);
    assert_eq!(checked_process_directory(&tree, BUFFER, false, true), None);
    assert_eq!(checked_process_directory(&tree, 0, false, true), Some(0));
}

#[test]
fn large_tree_within_the_limit_is_added_up() {
    let mut data = one_more_than_fits();
    data[0] = b'x';
    let tree = tree_with(data);
    assert_eq!(checked_process_directory(&tree, BUFFER, true, false), Some(2));
}
