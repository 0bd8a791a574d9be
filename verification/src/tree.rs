//! The nested key-value tree that a save decodes to.

use vstd::prelude::*;

verus! {

/// The mathematical value of a [`Node`].
///
/// A scalar is the raw text of one token. An object is an ordered sequence of
/// members, each a key and a value; a key may stand more than once, and a
/// member that has no key in the source carries the empty key. An array is an
/// ordered sequence of values.
pub enum Tree {
    Scalar(Seq<u8>),
    Object(Seq<(Seq<u8>, Tree)>),
    Array(Seq<Tree>),
}

/// A node of the decoded tree. It owns its children.
#[derive(Debug, PartialEq, Eq)]
pub enum Node {
    Scalar(Vec<u8>),
    Object(Vec<(Vec<u8>, Node)>),
    Array(Vec<Node>),
}

impl Node {
    /// The tree that this node and its descendants stand for.
    pub open spec fn tree(&self) -> Tree
        decreases self,
    {
        match self {
            Node::Scalar(raw) => Tree::Scalar(raw@),
            Node::Object(members) => Tree::Object(
                Seq::new(
                    members@.len(),
                    |i: int|
                        if 0 <= i < members@.len() {
                            (members@[i].0@, members@[i].1.tree())
                        } else {
                            (Seq::empty(), Tree::Scalar(Seq::empty()))
                        },
                ),
            ),
            Node::Array(items) => Tree::Array(
                Seq::new(
                    items@.len(),
                    |i: int|
                        if 0 <= i < items@.len() {
                            items@[i].tree()
                        } else {
                            Tree::Scalar(Seq::empty())
                        },
                ),
            ),
        }
    }
}

impl View for Node {
    type V = Tree;

    open spec fn view(&self) -> Tree {
        self.tree()
    }
}

/// The views of a sequence of members, in order.
pub open spec fn member_views(members: Seq<(Vec<u8>, Node)>) -> Seq<(Seq<u8>, Tree)> {
    Seq::new(members.len(), |i: int| (members[i].0@, members[i].1@))
}

/// The views of a sequence of nodes, in order.
pub open spec fn node_views(items: Seq<Node>) -> Seq<Tree> {
    Seq::new(items.len(), |i: int| items[i]@)
}

/// The view of an object is the views of its members.
pub proof fn lemma_object_view(node: Node)
    requires
        node is Object,
    ensures
        node@ == Tree::Object(member_views(node->Object_0@)),
{
    match node {
        Node::Object(members) => {
            assert(node@->Object_0 =~= member_views(members@));
        },
        _ => {},
    }
}

/// The view of an array is the views of its items.
pub proof fn lemma_array_view(node: Node)
    requires
        node is Array,
    ensures
        node@ == Tree::Array(node_views(node->Array_0@)),
{
    match node {
        Node::Array(items) => {
            assert(node@->Array_0 =~= node_views(items@));
        },
        _ => {},
    }
}

} // verus!
