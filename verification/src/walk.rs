//! Traversal of a directory tree: one level deep, or depth-first through all
//! levels with the pending paths kept on a stack in place of recursion.

use crate::tree::{
    drained, entries_of, forest_count, leaves, lemma_drained_concat, lemma_forest_count_concat,
    node_count, Node,
};
use vstd::prelude::*;

verus! {

/// What was found at a path that a [`Walker`] handed out.
pub enum Probe<P> {
    /// A directory, with the entries that could be read, in the order in
    /// which they were read; none where the directory could not be listed.
    Directory(Vec<P>),
    /// Anything else.
    Leaf,
}

/// The state of a depth-first traversal: the paths that are still to be
/// visited. The last one is visited next. Its view is that sequence.
pub struct Walker<P> {
    stack: Vec<P>,
}

impl<P> View for Walker<P> {
    type V = Seq<P>;

    closed spec fn view(&self) -> Seq<P> {
        self.stack@
    }
}

impl<P> Walker<P> {
    /// A traversal that has `root` to visit.
    pub fn new(root: P) -> (walker: Self)
        ensures
            walker@ == seq![root],
    {
        let mut stack = Vec::new();
        stack.push(root);
        Walker { stack }
    }

    /// Takes the path to visit next: the one that was put there last. `None`
    /// says that the traversal is complete.
    pub fn pop(&mut self) -> (next: Option<P>)
        ensures
            match next {
                Some(path) => {
                    &&& old(self)@.len() > 0
                    &&& path == old(self)@.last()
                    &&& final(self)@ == old(self)@.drop_last()
                },
                None => old(self)@.len() == 0 && final(self)@.len() == 0,
            },
    {
        self.stack.pop()
    }

    /// Takes in what was found at `path`, which [`Walker::pop`] handed out.
    /// The entries of a directory are put on the stack in their order, so
    /// that the last of them is visited next, and nothing is yielded.
    /// Anything else is yielded as it is.
    pub fn visit(&mut self, path: P, found: Probe<P>) -> (yielded: Option<P>)
        ensures
            match found {
                Probe::Directory(entries) => {
                    &&& yielded is None
                    &&& final(self)@ == old(self)@ + entries@
                },
                Probe::Leaf => {
                    &&& yielded == Some(path)
                    &&& final(self)@ == old(self)@
                },
            },
    {
        match found {
            Probe::Directory(entries) => {
                let mut entries = entries;
                self.stack.append(&mut entries);
                None
            },
            Probe::Leaf => Some(path),
        }
    }
}

/// The nodes that `refs` point to.
pub open spec fn nodes_of(refs: Seq<&Node>) -> Seq<Node> {
    refs.map_values(|r: &Node| *r)
}

/// The entries of a directory, each by reference.
fn entry_refs<'a>(entries: &'a Vec<Node>) -> (refs: Vec<&'a Node>)
    ensures
        nodes_of(refs@) == entries@,
{
    let mut refs: Vec<&'a Node> = Vec::new();
    let mut i: usize = 0;
    while i < entries.len()
        invariant
            i <= entries.len(),
            refs@.len() == i,
            nodes_of(refs@) == entries@.take(i as int),
        decreases entries.len() - i,
    {
        let ghost so_far = refs@;
        refs.push(&entries[i]);
        assert forall|j: int| 0 <= j <= i implies nodes_of(refs@)[j] == entries@[j] by {
            if j < i {
                assert(nodes_of(so_far)[j] == entries@.take(i as int)[j]);
            }
        }
        assert(nodes_of(refs@) =~= entries@.take(i + 1));
        i = i + 1;
    }
    assert(entries@.take(entries.len() as int) =~= entries@);
    refs
}

/// What stands at `node`, as a traversal finds it.
fn probe<'a>(node: &'a Node) -> (found: Probe<&'a Node>)
    ensures
        match found {
            Probe::Directory(entries) => node is Dir && nodes_of(entries@) == node->entries@,
            Probe::Leaf => !(node is Dir),
        },
{
    match node {
        Node::Dir { entries, .. } => Probe::Directory(entry_refs(entries)),
        _ => Probe::Leaf,
    }
}

/// Runs the traversal up to the node that it yields next. Directories are
/// opened on the way and never yielded. `None` says that the traversal is
/// complete.
pub fn next_leaf<'a>(walker: &mut Walker<&'a Node>) -> (leaf: Option<&'a Node>)
    ensures
        match leaf {
            Some(node) => drained(nodes_of(old(walker)@)) == seq![*node] + drained(
                nodes_of(final(walker)@),
            ),
            None => drained(nodes_of(old(walker)@)).len() == 0 && final(walker)@.len() == 0,
        },
{
    loop
        invariant
            drained(nodes_of(walker@)) == drained(nodes_of(old(walker)@)),
        decreases forest_count(nodes_of(walker@)),
    {
        let ghost before = nodes_of(walker@);
        match walker.pop() {
            None => {
                return None;
            },
            Some(node) => {
                let ghost below = nodes_of(walker@);
                assert(below =~= before.drop_last());
                assert(before.last() == *node);
                assert(drained(before) == leaves(*node) + drained(below));
                assert(forest_count(before) == forest_count(below) + node_count(*node));
                let found = probe(node);
                match walker.visit(node, found) {
                    Some(leaf) => {
                        assert(leaves(*node) =~= seq![*node]);
                        return Some(leaf);
                    },
                    None => {
                        proof {
                            let entries = node->entries@;
                            assert(nodes_of(walker@) =~= below + entries);
                            lemma_drained_concat(below, entries);
                            lemma_forest_count_concat(below, entries);
                        }
                    },
                }
            },
        }
    }
}

/// All that a depth-first traversal from `root` yields, through all levels:
/// what stands at `root` itself where that is no directory, and else what
/// stands below it and is no directory. Of the entries of one directory the
/// last is visited first.
pub fn walk_recursive<'a>(root: &'a Node) -> (found: Vec<&'a Node>)
    ensures
        nodes_of(found@) == leaves(*root),
{
    let mut walker = Walker::new(root);
    let mut found: Vec<&'a Node> = Vec::new();
    assert(nodes_of(walker@) =~= seq![*root]);
    assert(drained(seq![*root]) =~= leaves(*root)) by {
        assert(seq![*root].drop_last() =~= Seq::<Node>::empty());
        assert(drained(Seq::<Node>::empty()) =~= Seq::<Node>::empty());
    }
    loop
        invariant
            nodes_of(found@) + drained(nodes_of(walker@)) == leaves(*root),
        ensures
            nodes_of(found@) == leaves(*root),
        decreases drained(nodes_of(walker@)).len(),
    {
        match next_leaf(&mut walker) {
            Some(node) => {
                let ghost so_far = nodes_of(found@);
                found.push(node);
                assert(nodes_of(found@) =~= so_far + seq![*node]);
                assert((so_far + seq![*node]) + drained(nodes_of(walker@)) =~= so_far + (seq![
                    *node,
                ] + drained(nodes_of(walker@))));
            },
            None => {
                assert(nodes_of(found@) + drained(nodes_of(walker@)) =~= nodes_of(found@));
                break ;
            },
        }
    }
    found
}

/// What a traversal of one level hands out: the entries of `dir`, where a
/// directory among them is handed out as it is and not opened. What cannot be
/// listed, because it is no directory, is passed over: it hands out nothing.
pub fn walk_shallow<'a>(dir: &'a Node) -> (found: Vec<&'a Node>)
    ensures
        nodes_of(found@) == entries_of(*dir),
{
    match dir {
        Node::Dir { entries, .. } => entry_refs(entries),
        _ => {
            let found: Vec<&'a Node> = Vec::new();
            assert(nodes_of(found@) =~= Seq::<Node>::empty());
            found
        },
    }
}

} // verus!
