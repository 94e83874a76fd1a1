//! A pure model of a directory tree: named entries, each a file with byte
//! contents or a subdirectory. The diff and apply engines work on this model;
//! reading a live directory into it, and writing changes back to disk, is
//! left to unverified callers.

use vstd::prelude::*;

use crate::bytes::bytes_eq;

verus! {

/// A directory: its entries, in directory-listing order.
#[derive(Debug, PartialEq, Eq)]
pub struct Tree {
    pub entries: Vec<TreeEntry>,
}

/// One directory entry: its name (the bytes of one path component, so it
/// should contain no `/`) and what it holds.
#[derive(Debug, PartialEq, Eq)]
pub struct TreeEntry {
    pub name: Vec<u8>,
    pub node: Node,
}

/// What a directory entry holds: a regular file with its contents, or a
/// subdirectory.
#[derive(Debug, PartialEq, Eq)]
pub enum Node {
    File(Vec<u8>),
    Dir(Tree),
}

/// Entry names within one directory are distinct, recursively. A tree read
/// from a real filesystem always satisfies this.
pub open spec fn tree_wf(t: Tree) -> bool
    decreases t,
{
    &&& forall|i: int, j: int|
        0 <= i < j < t.entries@.len() ==> t.entries@[i].name@ != t.entries@[j].name@
    &&& forall|i: int| 0 <= i < t.entries@.len() ==> node_wf(#[trigger] t.entries@[i].node)
}

pub open spec fn node_wf(n: Node) -> bool
    decreases n,
{
    match n {
        Node::File(_) => true,
        Node::Dir(t) => tree_wf(t),
    }
}

/// The mathematical model of a directory entry's node.
pub enum NodeModel {
    File(Seq<u8>),
    Dir(TreeModel),
}

/// The mathematical model of a directory: name/node pairs in listing order.
pub struct TreeModel {
    pub entries: Seq<(Seq<u8>, NodeModel)>,
}

pub open spec fn node_model(n: Node) -> NodeModel
    decreases n,
{
    match n {
        Node::File(c) => NodeModel::File(c@),
        Node::Dir(t) => NodeModel::Dir(tree_model(t)),
    }
}

pub open spec fn tree_model(t: Tree) -> TreeModel
    decreases t,
{
    TreeModel {
        entries: Seq::new(
            t.entries@.len(),
            |i: int|
                if 0 <= i < t.entries@.len() {
                    (t.entries@[i].name@, node_model(t.entries@[i].node))
                } else {
                    (Seq::empty(), NodeModel::File(Seq::empty()))
                },
        ),
    }
}

impl View for Node {
    type V = NodeModel;

    open spec fn view(&self) -> NodeModel {
        node_model(*self)
    }
}

impl View for Tree {
    type V = TreeModel;

    open spec fn view(&self) -> TreeModel {
        tree_model(*self)
    }
}

/// The index of the first entry named `name` in the modelled directory, at
/// or after index `i`.
pub open spec fn model_index_from(
    entries: Seq<(Seq<u8>, NodeModel)>,
    i: int,
    name: Seq<u8>,
) -> Option<int>
    decreases entries.len() - i,
{
    if i < 0 || i >= entries.len() {
        None
    } else if entries[i].0 == name {
        Some(i)
    } else {
        model_index_from(entries, i + 1, name)
    }
}

/// What `model_index_from` returns: the first entry with the name, if any.
pub proof fn lemma_model_index_from(entries: Seq<(Seq<u8>, NodeModel)>, i: int, name: Seq<u8>)
    requires
        0 <= i,
    ensures
        match model_index_from(entries, i, name) {
            Some(j) => i <= j < entries.len() && entries[j].0 == name && forall|k: int|
                i <= k < j ==> entries[k].0 != name,
            None => forall|k: int| i <= k < entries.len() ==> entries[k].0 != name,
        },
    decreases entries.len() - i,
{
    if i < entries.len() && entries[i].0 != name {
        lemma_model_index_from(entries, i + 1, name);
    }
}

/// Searching the modelled entries mirrors searching the tree itself.
pub proof fn lemma_model_find(t: Tree, i: int, name: Seq<u8>)
    ensures
        match (find_entry_from(t, i, name), model_index_from(tree_model(t).entries, i, name)) {
            (None, None) => true,
            (Some(n), Some(j)) => 0 <= j < t.entries@.len() && t.entries@[j].node == n
                && t.entries@[j].name@ == name && tree_model(t).entries[j] == (name, node_model(n)),
            _ => false,
        },
    decreases t.entries@.len() - i,
{
    if 0 <= i < t.entries@.len() {
        assert(tree_model(t).entries[i] == (t.entries@[i].name@, node_model(t.entries@[i].node)));
        if t.entries@[i].name@ != name {
            lemma_model_find(t, i + 1, name);
        }
    }
}

/// A name a real directory entry can have: nonempty, without the path
/// separator `/`.
pub open spec fn valid_name(name: Seq<u8>) -> bool {
    name.len() > 0 && !name.contains(47u8)
}

/// All entry names in the tree are valid, recursively.
pub open spec fn tree_names_ok(t: Tree) -> bool
    decreases t,
{
    &&& forall|i: int| 0 <= i < t.entries@.len() ==> valid_name(#[trigger] t.entries@[i].name@)
    &&& forall|i: int| 0 <= i < t.entries@.len() ==> node_names_ok(#[trigger] t.entries@[i].node)
}

pub open spec fn node_names_ok(n: Node) -> bool
    decreases n,
{
    match n {
        Node::File(_) => true,
        Node::Dir(t) => tree_names_ok(t),
    }
}

/// The node named `name` in `t`, searching entries in order (first match).
/// Under `tree_wf` the first match is the only one.
pub open spec fn find_entry_from(t: Tree, i: int, name: Seq<u8>) -> Option<Node>
    decreases t.entries@.len() - i,
{
    if i < 0 || i >= t.entries@.len() {
        None
    } else if t.entries@[i].name@ == name {
        Some(t.entries@[i].node)
    } else {
        find_entry_from(t, i + 1, name)
    }
}

pub open spec fn find_entry(t: Tree, name: Seq<u8>) -> Option<Node> {
    find_entry_from(t, 0, name)
}

/// In a well-formed tree, looking an entry up by its own name finds exactly
/// that entry.
pub proof fn lemma_find_entry_wf(t: Tree, i: int)
    requires
        tree_wf(t),
        0 <= i < t.entries@.len(),
    ensures
        find_entry(t, t.entries@[i].name@) == Some(t.entries@[i].node),
{
    lemma_find_entry_from_wf(t, 0, i);
}

proof fn lemma_find_entry_from_wf(t: Tree, j: int, i: int)
    requires
        tree_wf(t),
        0 <= j <= i < t.entries@.len(),
    ensures
        find_entry_from(t, j, t.entries@[i].name@) == Some(t.entries@[i].node),
    decreases i - j,
{
    if j < i {
        assert(t.entries@[j].name@ != t.entries@[i].name@);
        lemma_find_entry_from_wf(t, j + 1, i);
    }
}

/// Find the node named `name` in `t`, scanning entries in order.
pub fn lookup_entry<'a>(t: &'a Tree, name: &Vec<u8>) -> (r: Option<&'a Node>)
    ensures
        match r {
            Some(n) => find_entry(*t, name@) == Some(*n),
            None => find_entry(*t, name@) is None,
        },
{
    let mut i: usize = 0;
    while i < t.entries.len()
        invariant
            0 <= i <= t.entries@.len(),
            find_entry(*t, name@) == find_entry_from(*t, i as int, name@),
        decreases t.entries@.len() - i,
    {
        proof {
            lemma_find_entry_step(*t, i as int, name@);
        }
        if bytes_eq(&t.entries[i].name, name) {
            return Some(&t.entries[i].node);
        }
        i += 1;
    }
    None
}

proof fn lemma_find_entry_step(t: Tree, i: int, name: Seq<u8>)
    requires
        0 <= i < t.entries@.len(),
    ensures
        find_entry_from(t, i, name) == if t.entries@[i].name@ == name {
            Some(t.entries@[i].node)
        } else {
            find_entry_from(t, i + 1, name)
        },
{
}

} // verus!
