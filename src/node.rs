use vstd::prelude::*;

use crate::token::{LiteralView, Token, TokenView};

verus! {

/// A node of the syntax tree.
///
/// The children of an `Object` are `Property` nodes; a `Property` stands only
/// directly under an `Object`.
#[derive(Debug)]
pub enum Node {
    Primary(crate::token::Literal),
    Object(Token, Vec<Node>, Token),
    Property(Token, Token, Box<Node>),
    List(Token, Vec<Node>, Token),
}

/// The mathematical value of a [`Node`].
pub enum Tree {
    Primary(LiteralView),
    Object(TokenView, Seq<Tree>, TokenView),
    Property(TokenView, TokenView, Box<Tree>),
    List(TokenView, Seq<Tree>, TokenView),
}

/// The tree that a node stands for.
pub open spec fn node_tree(n: Node) -> Tree
    decreases n, 0int,
{
    match n {
        Node::Primary(l) => Tree::Primary(l@),
        Node::Object(open, ps, close) => Tree::Object(open@, nodes_trees(ps@), close@),
        Node::Property(key, colon, value) => Tree::Property(
            key@,
            colon@,
            Box::new(node_tree(*value)),
        ),
        Node::List(open, es, close) => Tree::List(open@, nodes_trees(es@), close@),
    }
}

/// The trees that a sequence of nodes stands for, one for one.
pub open spec fn nodes_trees(ns: Seq<Node>) -> Seq<Tree>
    decreases ns, 0int,
{
    if ns.len() == 0 {
        Seq::empty()
    } else {
        nodes_trees(ns.subrange(0, ns.len() - 1)).push(node_tree(ns[ns.len() - 1]))
    }
}

impl View for Node {
    type V = Tree;

    open spec fn view(&self) -> Tree {
        node_tree(*self)
    }
}

pub proof fn lemma_nodes_trees(ns: Seq<Node>)
    ensures
        nodes_trees(ns).len() == ns.len(),
        forall|i: int| 0 <= i < ns.len() ==> #[trigger] nodes_trees(ns)[i] == node_tree(ns[i]),
    decreases ns.len(),
{
    if ns.len() > 0 {
        lemma_nodes_trees(ns.subrange(0, ns.len() - 1));
    }
}

} // verus!
