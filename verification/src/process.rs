//! What one file adds to a total, and the total of a directory.

use crate::counter::{count_lines, count_newlines_fast, count_nonempty_lines};
use crate::ext::{accepts, is_valid_ext, path_extension};
use crate::lines::{buffered_count, fitting, lemma_count_bounds};
use crate::tree::{entries_of, leaves, lemma_leaves_reach_all_depths, node_at, Node};
use crate::walk::{nodes_of, walk_recursive, walk_shallow};
use vstd::prelude::*;

verus! {

/// What a file with this name and content adds to a total. A file whose
/// extension is not listed adds nothing, whatever it holds, and so does a
/// file that cannot be opened (`content` is `None`). Any other file adds the
/// count of its content.
pub open spec fn file_count(
    name: Seq<char>,
    content: Option<Seq<u8>>,
    buffer_size: usize,
    skip_empty: bool,
) -> nat {
    match content {
        Some(data) if accepts(path_extension(name)) => buffered_count(
            skip_empty,
            data,
            buffer_size,
        ),
        _ => 0,
    }
}

/// What `node` adds to a total: its [`file_count`] if it is a regular file,
/// else nothing.
pub open spec fn contribution(node: Node, buffer_size: usize, skip_empty: bool) -> nat {
    match node {
        Node::File { name, content } => file_count(
            name@,
            match content {
                Some(data) => Some(data@),
                None => None,
            },
            buffer_size,
            skip_empty,
        ),
        _ => 0,
    }
}

/// What `nodes` add to a total together.
pub open spec fn total_of(nodes: Seq<Node>, buffer_size: usize, skip_empty: bool) -> nat
    decreases nodes.len(),
{
    if nodes.len() == 0 {
        0
    } else {
        total_of(nodes.drop_last(), buffer_size, skip_empty) + contribution(
            nodes.last(),
            buffer_size,
            skip_empty,
        )
    }
}

/// The nodes that a traversal of `dir` hands out: through all levels what a
/// depth-first traversal yields, else the entries of `dir` and nothing below
/// them.
pub open spec fn visited(dir: Node, recursive: bool) -> Seq<Node> {
    if recursive {
        leaves(dir)
    } else {
        entries_of(dir)
    }
}

/// The total of a directory: what the nodes that its traversal hands out add
/// together.
pub open spec fn directory_total(
    dir: Node,
    buffer_size: usize,
    skip_empty: bool,
    recursive: bool,
) -> nat {
    total_of(visited(dir, recursive), buffer_size, skip_empty)
}

/// Totals add up over a split.
pub proof fn lemma_total_of_concat(
    a: Seq<Node>,
    b: Seq<Node>,
    buffer_size: usize,
    skip_empty: bool,
)
    ensures
        total_of(a + b, buffer_size, skip_empty) == total_of(a, buffer_size, skip_empty)
            + total_of(b, buffer_size, skip_empty),
    decreases b.len(),
{
    if b.len() == 0 {
        assert(a + b =~= a);
    } else {
        assert((a + b).drop_last() =~= a + b.drop_last());
        lemma_total_of_concat(a, b.drop_last(), buffer_size, skip_empty);
    }
}

/// A total holds what each of its nodes adds.
pub proof fn lemma_total_of_holds_each(
    nodes: Seq<Node>,
    i: int,
    buffer_size: usize,
    skip_empty: bool,
)
    requires
        0 <= i < nodes.len(),
    ensures
        contribution(nodes[i], buffer_size, skip_empty) <= total_of(
            nodes,
            buffer_size,
            skip_empty,
        ),
    decreases nodes.len(),
{
    if i < nodes.len() - 1 {
        lemma_total_of_holds_each(nodes.drop_last(), i, buffer_size, skip_empty);
    }
}

/// A traversal of one level never descends: the total of a directory does
/// not depend on what its subdirectories hold.
pub proof fn lemma_shallow_ignores_subdirectories(
    a: Node,
    b: Node,
    buffer_size: usize,
    skip_empty: bool,
)
    requires
        entries_of(a).len() == entries_of(b).len(),
        forall|i: int|
            0 <= i < entries_of(a).len() ==> (entries_of(a)[i] is Dir && entries_of(b)[i] is Dir)
                || entries_of(a)[i] == entries_of(b)[i],
    ensures
        directory_total(a, buffer_size, skip_empty, false) == directory_total(
            b,
            buffer_size,
            skip_empty,
            false,
        ),
{
    lemma_same_total(entries_of(a), entries_of(b), buffer_size, skip_empty);
}

/// Sequences that differ only in their directories add the same.
proof fn lemma_same_total(a: Seq<Node>, b: Seq<Node>, buffer_size: usize, skip_empty: bool)
    requires
        a.len() == b.len(),
        forall|i: int| 0 <= i < a.len() ==> (a[i] is Dir && b[i] is Dir) || a[i] == b[i],
    ensures
        total_of(a, buffer_size, skip_empty) == total_of(b, buffer_size, skip_empty),
    decreases a.len(),
{
    if a.len() > 0 {
        lemma_same_total(a.drop_last(), b.drop_last(), buffer_size, skip_empty);
    }
}

/// A traversal through all levels reaches every file: what a file adds that
/// stands anywhere below `root` is part of the total.
pub proof fn lemma_recursive_counts_every_file(
    root: Node,
    route: Seq<int>,
    file: Node,
    buffer_size: usize,
    skip_empty: bool,
)
    requires
        node_at(root, route) == Some(file),
        file is File,
    ensures
        contribution(file, buffer_size, skip_empty) <= directory_total(
            root,
            buffer_size,
            skip_empty,
            true,
        ),
{
    lemma_leaves_reach_all_depths(root, route, file);
    let i = choose|i: int| 0 <= i < leaves(root).len() && leaves(root)[i] == file;
    lemma_total_of_holds_each(leaves(root), i, buffer_size, skip_empty);
}

/// What a file adds does not depend on the size of the buffer, as long as
/// the buffer holds at least one byte.
pub proof fn lemma_file_count_any_buffer(
    name: Seq<char>,
    content: Option<Seq<u8>>,
    size_a: usize,
    size_b: usize,
    skip_empty: bool,
)
    requires
        size_a > 0,
        size_b > 0,
    ensures
        file_count(name, content, size_a, skip_empty) == file_count(
            name,
            content,
            size_b,
            skip_empty,
        ),
{
}

/// The total of a directory does not depend on the size of the buffer, as
/// long as the buffer holds at least one byte.
pub proof fn lemma_directory_total_any_buffer(
    dir: Node,
    size_a: usize,
    size_b: usize,
    skip_empty: bool,
    recursive: bool,
)
    requires
        size_a > 0,
        size_b > 0,
    ensures
        directory_total(dir, size_a, skip_empty, recursive) == directory_total(
            dir,
            size_b,
            skip_empty,
            recursive,
        ),
{
    lemma_total_of_any_buffer(visited(dir, recursive), size_a, size_b, skip_empty);
}

/// What nodes add together does not depend on the size of the buffer.
proof fn lemma_total_of_any_buffer(
    nodes: Seq<Node>,
    size_a: usize,
    size_b: usize,
    skip_empty: bool,
)
    requires
        size_a > 0,
        size_b > 0,
    ensures
        total_of(nodes, size_a, skip_empty) == total_of(nodes, size_b, skip_empty),
    decreases nodes.len(),
{
    if nodes.len() > 0 {
        lemma_total_of_any_buffer(nodes.drop_last(), size_a, size_b, skip_empty);
    }
}

/// The content of a file as a sequence of bytes, where there is any.
pub open spec fn bytes_of(content: Option<&[u8]>) -> Option<Seq<u8>> {
    match content {
        Some(data) => Some(data@),
        None => None,
    }
}

/// What the file `name` adds to a total, where that is at most `i32::MAX`.
/// `content` holds the bytes that reading the file brings, or nothing where
/// the file cannot be opened. The name is tested first: a file whose
/// extension is not listed adds nothing, and its content is not looked at. A
/// file that cannot be opened adds nothing either. Any other file adds the
/// count of its content in the mode that `skip_empty` chooses.
pub fn process_file(name: &str, content: Option<&[u8]>, buffer_size: usize, skip_empty: bool) -> (n:
    i32)
    requires
        file_count(name@, bytes_of(content), buffer_size, skip_empty) <= i32::MAX,
    ensures
        n == file_count(name@, bytes_of(content), buffer_size, skip_empty),
        !name@.contains('.') ==> n == 0,
{
    if !is_valid_ext(name) {
        return 0;
    }
    match content {
        None => 0,
        Some(data) => {
            if skip_empty {
                count_nonempty_lines(data, buffer_size)
            } else {
                count_newlines_fast(data, buffer_size)
            }
        },
    }
}

/// What the file `name` adds to a total, for every file: `None` where that is
/// more than `i32::MAX`. A file of at most `i32::MAX` bytes cannot add more
/// than that, and goes to [`process_file`]. A larger one is tested and
/// counted here, with a counter that reports when the count grows too large.
pub fn checked_process_file(
    name: &str,
    content: Option<&[u8]>,
    buffer_size: usize,
    skip_empty: bool,
) -> (count: Option<i32>)
    ensures
        count == fitting(file_count(name@, bytes_of(content), buffer_size, skip_empty)),
        !name@.contains('.') ==> count == Some(0i32),
{
    match content {
        Some(data) if data.len() > 0x7fff_ffff => {
            if is_valid_ext(name) {
                count_lines(data, buffer_size, skip_empty)
            } else {
                Some(0)
            }
        },
        _ => {
            proof {
                if let Some(data) = content {
                    lemma_count_bounds(skip_empty, data@);
                }
            }
            Some(process_file(name, content, buffer_size, skip_empty))
        },
    }
}

/// The number of bytes that the regular files among `nodes` hold together.
pub open spec fn content_size(nodes: Seq<Node>) -> nat
    decreases nodes.len(),
{
    if nodes.len() == 0 {
        0
    } else {
        content_size(nodes.drop_last()) + match nodes.last() {
            Node::File { content: Some(data), .. } => data@.len(),
            _ => 0,
        }
    }
}

/// Files add no more than the bytes they hold.
pub proof fn lemma_total_at_most_size(nodes: Seq<Node>, buffer_size: usize, skip_empty: bool)
    ensures
        total_of(nodes, buffer_size, skip_empty) <= content_size(nodes),
    decreases nodes.len(),
{
    if nodes.len() > 0 {
        lemma_total_at_most_size(nodes.drop_last(), buffer_size, skip_empty);
        if let Node::File { content: Some(data), .. } = nodes.last() {
            lemma_count_bounds(skip_empty, data@);
        }
    }
}

/// Whether the regular files among `nodes` hold at most `i32::MAX` bytes
/// together.
fn is_small(nodes: &Vec<&Node>) -> (small: bool)
    ensures
        small == (content_size(nodes_of(nodes@)) <= i32::MAX),
{
    let ghost all = nodes_of(nodes@);
    let mut size: usize = 0;
    let mut i: usize = 0;
    while i < nodes.len()
        invariant
            i <= nodes.len(),
            all == nodes_of(nodes@),
            size == content_size(all.take(i as int)),
            size <= i32::MAX,
        decreases nodes.len() - i,
    {
        proof {
            assert(all.take(i + 1).drop_last() =~= all.take(i as int));
            assert(all.take(i + 1) + all.skip(i + 1) =~= all);
            lemma_content_size_concat(all.take(i + 1), all.skip(i + 1));
        }
        match nodes[i] {
            Node::File { content: Some(data), .. } => {
                if data.len() > 0x7fff_ffff - size {
                    return false;
                }
                size = size + data.len();
            },
            _ => {},
        }
        i = i + 1;
    }
    assert(all.take(nodes.len() as int) =~= all);
    true
}

/// Sizes add up over a split.
proof fn lemma_content_size_concat(a: Seq<Node>, b: Seq<Node>)
    ensures
        content_size(a + b) == content_size(a) + content_size(b),
    decreases b.len(),
{
    if b.len() == 0 {
        assert(a + b =~= a);
    } else {
        assert((a + b).drop_last() =~= a + b.drop_last());
        lemma_content_size_concat(a, b.drop_last());
    }
}

/// The total of the directory `dir`, where that is at most `i32::MAX`: what
/// the regular files add that its traversal hands out, one level deep or
/// through all levels.
pub fn process_directory(dir: &Node, buffer: usize, skip_empty: bool, recursive: bool) -> (total:
    i32)
    requires
        directory_total(*dir, buffer, skip_empty, recursive) <= i32::MAX,
    ensures
        total == directory_total(*dir, buffer, skip_empty, recursive),
{
    let walker = if recursive {
        walk_recursive(dir)
    } else {
        walk_shallow(dir)
    };
    let ghost nodes = nodes_of(walker@);
    let mut total: i32 = 0;
    let mut i: usize = 0;
    while i < walker.len()
        invariant
            i <= walker.len(),
            nodes == nodes_of(walker@),
            total_of(nodes, buffer, skip_empty) <= i32::MAX,
            total == total_of(nodes.take(i as int), buffer, skip_empty),
        decreases walker.len() - i,
    {
        proof {
            assert(nodes.take(i + 1).drop_last() =~= nodes.take(i as int));
            assert(nodes.take(i + 1) + nodes.skip(i + 1) =~= nodes);
            lemma_total_of_concat(nodes.take(i + 1), nodes.skip(i + 1), buffer, skip_empty);
        }
        match walker[i] {
            Node::File { name, content } => {
                let bytes = match content {
                    Some(data) => Some(data.as_slice()),
                    None => None,
                };
                total = total + process_file(name.as_str(), bytes, buffer, skip_empty);
            },
            _ => {},
        }
        i = i + 1;
    }
    assert(nodes.take(walker.len() as int) =~= nodes);
    total
}

/// The total of the directory `dir`, for every tree: `None` where the total
/// is more than `i32::MAX`. A tree whose files hold at most `i32::MAX` bytes
/// together cannot add more than that, and goes to [`process_directory`]. A
/// larger one is added up here file by file, and the sum is tested at each.
pub fn checked_process_directory(
    dir: &Node,
    buffer: usize,
    skip_empty: bool,
    recursive: bool,
) -> (total: Option<i32>)
    ensures
        total == fitting(directory_total(*dir, buffer, skip_empty, recursive)),
{
    let walker = if recursive {
        walk_recursive(dir)
    } else {
        walk_shallow(dir)
    };
    let ghost nodes = nodes_of(walker@);
    if is_small(&walker) {
        proof {
            lemma_total_at_most_size(nodes, buffer, skip_empty);
        }
        return Some(process_directory(dir, buffer, skip_empty, recursive));
    }
    let mut total: i32 = 0;
    let mut i: usize = 0;
    while i < walker.len()
        invariant
            i <= walker.len(),
            nodes == nodes_of(walker@),
            nodes == visited(*dir, recursive),
            total == total_of(nodes.take(i as int), buffer, skip_empty),
        decreases walker.len() - i,
    {
        proof {
            assert(nodes.take(i + 1).drop_last() =~= nodes.take(i as int));
            assert(nodes.take(i + 1) + nodes.skip(i + 1) =~= nodes);
            lemma_total_of_concat(nodes.take(i + 1), nodes.skip(i + 1), buffer, skip_empty);
        }
        match walker[i] {
            Node::File { name, content } => {
                let bytes = match content {
                    Some(data) => Some(data.as_slice()),
                    None => None,
                };
                let added = match checked_process_file(name.as_str(), bytes, buffer, skip_empty) {
                    Some(count) => total.checked_add(count),
                    None => None,
                };
                match added {
                    Some(sum) => {
                        total = sum;
                    },
                    None => {
                        return None;
                    },
                }
            },
            _ => {},
        }
        i = i + 1;
    }
    assert(nodes.take(walker.len() as int) =~= nodes);
    Some(total)
}

} // verus!
