//! A directory tree as plain values, and what a traversal of it yields.

use vstd::prelude::*;

verus! {

/// What stands at one path of a directory tree.
pub enum Node {
    /// A regular file.
    File {
        /// The file's name, extension included.
        name: String,
        /// The bytes that reading the file brings; `None` where the file
        /// cannot be opened.
        content: Option<Vec<u8>>,
    },
    /// A directory.
    Dir {
        /// The directory's name.
        name: String,
        /// The entries that listing the directory brings, in the order in
        /// which it brings them; none where it cannot be listed.
        entries: Vec<Node>,
    },
    /// Anything that is neither a regular file nor a directory.
    Other {
        /// Its name.
        name: String,
    },
}

/// What listing `node` brings: the entries of a directory, and nothing for
/// what is no directory, which cannot be listed.
pub open spec fn entries_of(node: Node) -> Seq<Node> {
    match node {
        Node::Dir { entries, .. } => entries@,
        _ => Seq::empty(),
    }
}

/// What a depth-first traversal yields that starts at `node`: the node
/// itself, or for a directory what a traversal yields that has its entries
/// pending.
pub open spec fn leaves(node: Node) -> Seq<Node>
    decreases node,
{
    match node {
        Node::Dir { entries, .. } => drained(entries@),
        _ => seq![node],
    }
}

/// What a depth-first traversal yields that has `pending` still to visit.
/// The node that was put there last is visited first, and all that lies
/// below it is yielded before the node that was put there before it.
pub open spec fn drained(pending: Seq<Node>) -> Seq<Node>
    decreases pending,
{
    if pending.len() == 0 {
        Seq::empty()
    } else {
        leaves(pending.last()) + drained(pending.drop_last())
    }
}

/// The number of nodes of the tree at `node`.
pub open spec fn node_count(node: Node) -> nat
    decreases node,
{
    match node {
        Node::Dir { entries, .. } => 1 + forest_count(entries@),
        _ => 1,
    }
}

/// The number of nodes of the trees at `nodes`.
pub open spec fn forest_count(nodes: Seq<Node>) -> nat
    decreases nodes,
{
    if nodes.len() == 0 {
        0
    } else {
        forest_count(nodes.drop_last()) + node_count(nodes.last())
    }
}

/// The node that is reached from `root` by taking, at each directory on the
/// way, the entry whose index `route` gives next; `None` where the route
/// leaves the tree.
pub open spec fn node_at(root: Node, route: Seq<int>) -> Option<Node>
    decreases route.len(),
{
    if route.len() == 0 {
        Some(root)
    } else {
        match root {
            Node::Dir { entries, .. } => if 0 <= route[0] < entries@.len() {
                node_at(entries@[route[0]], route.drop_first())
            } else {
                None
            },
            _ => None,
        }
    }
}

/// Nodes that are put on top of others are drained before them.
pub proof fn lemma_drained_concat(below: Seq<Node>, above: Seq<Node>)
    ensures
        drained(below + above) == drained(above) + drained(below),
    decreases above.len(),
{
    if above.len() == 0 {
        assert(below + above =~= below);
        assert(drained(above) + drained(below) =~= drained(below));
    } else {
        assert((below + above).drop_last() =~= below + above.drop_last());
        lemma_drained_concat(below, above.drop_last());
        assert(leaves(above.last()) + (drained(above.drop_last()) + drained(below)) =~= (leaves(
            above.last(),
        ) + drained(above.drop_last())) + drained(below));
    }
}

/// The trees at `below + above` hold the nodes of both.
pub proof fn lemma_forest_count_concat(below: Seq<Node>, above: Seq<Node>)
    ensures
        forest_count(below + above) == forest_count(below) + forest_count(above),
    decreases above.len(),
{
    if above.len() == 0 {
        assert(below + above =~= below);
    } else {
        assert((below + above).drop_last() =~= below + above.drop_last());
        lemma_forest_count_concat(below, above.drop_last());
    }
}

/// What draining `pending` yields holds what each of its nodes yields.
pub proof fn lemma_drained_holds_leaves(pending: Seq<Node>, i: int, leaf: Node)
    requires
        0 <= i < pending.len(),
        leaves(pending[i]).contains(leaf),
    ensures
        drained(pending).contains(leaf),
    decreases pending.len(),
{
    let last = pending.len() - 1;
    if i == last {
        let k = choose|k: int| 0 <= k < leaves(pending[i]).len() && leaves(pending[i])[k] == leaf;
        assert(drained(pending)[k] == leaf);
    } else {
        lemma_drained_holds_leaves(pending.drop_last(), i, leaf);
        let rest = drained(pending.drop_last());
        let k = choose|k: int| 0 <= k < rest.len() && rest[k] == leaf;
        assert(drained(pending)[leaves(pending.last()).len() + k] == leaf);
    }
}

/// A traversal reaches every depth: whatever stands somewhere below `root`
/// and is no directory is among what the traversal from `root` yields.
pub proof fn lemma_leaves_reach_all_depths(root: Node, route: Seq<int>, leaf: Node)
    requires
        node_at(root, route) == Some(leaf),
        !(leaf is Dir),
    ensures
        leaves(root).contains(leaf),
    decreases route.len(),
{
    if route.len() == 0 {
        assert(leaves(root)[0] == leaf);
    } else {
        match root {
            Node::Dir { entries, .. } => {
                lemma_leaves_reach_all_depths(entries@[route[0]], route.drop_first(), leaf);
                lemma_drained_holds_leaves(entries@, route[0], leaf);
            },
            _ => {},
        }
    }
}

/// A traversal yields nothing else: each node that the traversal from `root`
/// yields is no directory and stands somewhere below `root`.
pub proof fn lemma_leaves_stand_in_tree(root: Node, leaf: Node) -> (route: Seq<int>)
    requires
        leaves(root).contains(leaf),
    ensures
        node_at(root, route) == Some(leaf),
        !(leaf is Dir),
    decreases root,
{
    match root {
        Node::Dir { entries, .. } => {
            let (i, below) = lemma_drained_stands_in_forest(entries@, leaf);
            let route = seq![i] + below;
            assert(route.drop_first() =~= below);
            route
        },
        _ => {
            assert(leaves(root) =~= seq![root]);
            Seq::empty()
        },
    }
}

/// Each node that draining `pending` yields is no directory and stands
/// somewhere below one of its nodes.
pub proof fn lemma_drained_stands_in_forest(pending: Seq<Node>, leaf: Node) -> (found: (
    int,
    Seq<int>,
))
    requires
        drained(pending).contains(leaf),
    ensures
        0 <= found.0 < pending.len(),
        node_at(pending[found.0], found.1) == Some(leaf),
        !(leaf is Dir),
    decreases pending,
{
    if pending.len() == 0 {
        (0, Seq::empty())
    } else {
        let first = leaves(pending.last());
        let rest = drained(pending.drop_last());
        let k = choose|k: int| 0 <= k < (first + rest).len() && (first + rest)[k] == leaf;
        if k < first.len() {
            assert(first[k] == leaf);
            let route = lemma_leaves_stand_in_tree(pending.last(), leaf);
            (pending.len() - 1, route)
        } else {
            assert(rest[k - first.len()] == leaf);
            lemma_drained_stands_in_forest(pending.drop_last(), leaf)
        }
    }
}

} // verus!
