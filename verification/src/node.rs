//! The tree that a document parses to, and its mathematical model.

use vstd::prelude::*;

verus! {

/// The mathematical model of a parsed value: a leaf that holds text, or an
/// ordered list of further trees.
pub enum Tree {
    Item(Seq<char>),
    List(Seq<Tree>),
}

/// A parsed value: a leaf string or a list of child nodes. Each node owns its
/// descendants.
#[derive(Debug, PartialEq, Eq)]
pub enum Node {
    Item(String),
    List(Vec<Node>),
}

impl Tree {
    /// Whether no list in the tree lies more than `levels` lists deep, the
    /// tree itself counted: a leaf nests within any number of levels, a list
    /// needs one level for itself and the rest for its children.
    pub open spec fn nests_within(self, levels: nat) -> bool
        decreases self,
    {
        match self {
            Tree::Item(_) => true,
            Tree::List(children) => levels > 0 && forall|i: int|
                0 <= i < children.len() ==> (#[trigger] children[i]).nests_within(
                    (levels - 1) as nat,
                ),
        }
    }
}

impl View for Node {
    type V = Tree;

    /// The model of a leaf is its text; the model of a list is the models of
    /// its children, in order. (The sequence is built index by index; no
    /// index outside the list is ever read.)
    open spec fn view(&self) -> Tree
        decreases self,
    {
        match self {
            Node::Item(value) => Tree::Item(value@),
            Node::List(children) => Tree::List(
                Seq::new(
                    children.len() as nat,
                    |i: int|
                        if 0 <= i < children.len() {
                            children[i]@
                        } else {
                            Tree::List(Seq::empty())
                        },
                ),
            ),
        }
    }
}

/// The models of a sequence of nodes, in order.
pub open spec fn forest_view(nodes: Seq<Node>) -> Seq<Tree> {
    nodes.map_values(|node: Node| node@)
}

/// A list node is modelled by the models of its children.
pub proof fn lemma_list_view(children: Vec<Node>)
    ensures
        Node::List(children)@ == Tree::List(forest_view(children@)),
{
    assert(Node::List(children)@->List_0 =~= forest_view(children@));
}

impl Clone for Node {
    /// A deep copy: the copy has the same model as the node it was made from.
    fn clone(&self) -> (copy: Self)
        ensures
            copy@ == self@,
        decreases self,
    {
        match self {
            Node::Item(value) => Node::Item(value.clone()),
            Node::List(children) => {
                let mut copies: Vec<Node> = Vec::new();
                let mut i: usize = 0;
                while i < children.len()
                    invariant
                        i <= children.len(),
                        self is List,
                        *children == self->List_0,
                        copies@.len() == i,
                        forall|k: int| 0 <= k < i ==> copies@[k]@ == children@[k]@,
                    decreases children.len() - i,
                {
                    let copy = children[i].clone();
                    copies.push(copy);
                    i += 1;
                }
                assert(Node::List(copies)@->List_0 =~= self@->List_0);
                Node::List(copies)
            },
        }
    }
}

impl Node {
    /// The text of a leaf, borrowed, or nothing for a list.
    pub fn item(&self) -> (value: Option<&String>)
        ensures
            value == (match self {
                Node::Item(text) => Some(text),
                Node::List(_) => None,
            }),
            match self@ {
                Tree::Item(text) => value matches Some(s) && s@ == text,
                Tree::List(_) => value is None,
            },
    {
        match self {
            Node::Item(value) => Some(value),
            _ => None,
        }
    }

    /// The children of a list, borrowed, or nothing for a leaf.
    pub fn list(&self) -> (children: Option<&Vec<Node>>)
        ensures
            children == (match self {
                Node::Item(_) => None,
                Node::List(nodes) => Some(nodes),
            }),
            match self@ {
                Tree::Item(_) => children is None,
                Tree::List(trees) => children matches Some(nodes) && forest_view(nodes@) == trees,
            },
    {
        match self {
            Node::List(items) => {
                proof {
                    lemma_list_view(*items);
                }
                Some(items)
            },
            _ => None,
        }
    }

    /// Takes the node apart: the text of a leaf, or nothing for a list.
    pub fn as_item(self) -> (value: Option<String>)
        ensures
            value == (match self {
                Node::Item(text) => Some(text),
                Node::List(_) => None,
            }),
            match self@ {
                Tree::Item(text) => value matches Some(s) && s@ == text,
                Tree::List(_) => value is None,
            },
    {
        match self {
            Node::Item(value) => Some(value),
            _ => None,
        }
    }

    /// Takes the node apart: the children of a list, or nothing for a leaf.
    pub fn as_list(self) -> (children: Option<Vec<Node>>)
        ensures
            children == (match self {
                Node::Item(_) => None,
                Node::List(nodes) => Some(nodes),
            }),
            match self@ {
                Tree::Item(_) => children is None,
                Tree::List(trees) => children matches Some(nodes) && forest_view(nodes@) == trees,
            },
    {
        match self {
            Node::List(items) => {
                proof {
                    lemma_list_view(items);
                }
                Some(items)
            },
            _ => None,
        }
    }
}

} // verus!
