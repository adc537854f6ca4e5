use vstd::prelude::*;

use crate::node::{lemma_nodes_trees, nodes_trees, Node, Tree};
use crate::token::{quote, Literal, Token};

verus! {

/// The compact rendering of a tree: delimiters as their tokens hold them,
/// children side by side, no separators and no whitespace added.
pub open spec fn compact(t: Tree) -> Seq<char>
    decreases t, 0int,
{
    match t {
        Tree::Primary(l) => l.quoted_text(),
        Tree::Object(open, ps, close) => open.literal.text() + compact_all(ps) + close.literal.text(),
        Tree::Property(key, colon, value) => key.literal.text() + colon.literal.text() + compact(
            *value,
        ),
        Tree::List(open, es, close) => open.literal.text() + compact_all(es) + close.literal.text(),
    }
}

/// The compact renderings of `ts`, one after the other.
pub open spec fn compact_all(ts: Seq<Tree>) -> Seq<char>
    decreases ts, 0int,
{
    if ts.len() == 0 {
        Seq::empty()
    } else {
        compact_all(ts.subrange(0, ts.len() - 1)) + compact(ts[ts.len() - 1])
    }
}

/// `n` space characters.
pub open spec fn spaces(n: nat) -> Seq<char> {
    Seq::new(n, |i: int| ' ')
}

/// The indented rendering of `t` standing at nesting depth `depth`.
///
/// An empty object or list is its two delimiters. A non-empty one is its
/// opening delimiter and a newline, then one line per child, indented by four
/// spaces more than the container and ended by a comma unless it is the last,
/// then the closing delimiter indented as the container.
pub open spec fn indented(t: Tree, depth: nat) -> Seq<char>
    decreases t, 0int,
{
    match t {
        Tree::Primary(l) => l.quoted_text(),
        Tree::Property(key, colon, value) => quote(key.literal.text()) + colon.literal.text()
            + seq![' '] + indented(*value, depth),
        Tree::Object(open, ps, close) => enclosed(
            open.literal.text(),
            ps.len(),
            child_lines(ps, ps.len(), depth + 1),
            close.literal.text(),
            depth,
        ),
        Tree::List(open, es, close) => enclosed(
            open.literal.text(),
            es.len(),
            child_lines(es, es.len(), depth + 1),
            close.literal.text(),
            depth,
        ),
    }
}

/// The lines of the first `n` children of `ts`, each at depth `depth`.
pub open spec fn child_lines(ts: Seq<Tree>, n: nat, depth: nat) -> Seq<char>
    decreases ts, n,
{
    if n == 0 || n > ts.len() {
        Seq::empty()
    } else {
        child_lines(ts, (n - 1) as nat, depth) + spaces(4 * depth) + indented(ts[n - 1], depth)
            + separator(n == ts.len()) + seq!['\n']
    }
}

/// What follows a child on its line: nothing after the last, else a comma.
pub open spec fn separator(last: bool) -> Seq<char> {
    if last {
        Seq::empty()
    } else {
        seq![',']
    }
}

/// A container at depth `depth` around `count` children whose lines are `lines`.
pub open spec fn enclosed(
    open: Seq<char>,
    count: nat,
    lines: Seq<char>,
    close: Seq<char>,
    depth: nat,
) -> Seq<char> {
    if count == 0 {
        open + close
    } else {
        open + seq!['\n'] + lines + spaces(4 * depth) + close
    }
}

/// Renders trees to text, compactly or with indentation.
pub struct PrettyPrint;

impl PrettyPrint {
    /// The compact rendering of `root`.
    pub fn print(&self, root: &Node) -> (r: String)
        ensures
            r@ == compact(root@),
    {
        root.accept(self)
    }

    /// The indented rendering of `root`, taken as standing at depth zero.
    pub fn dfs(&self, root: &Node) -> (r: String)
        ensures
            r@ == indented(root@, 0),
    {
        let indent = String::new();
        proof {
            assert(indent@ =~= spaces(0));
        }
        self.trav(root, &indent, Ghost(0))
    }

    /// A leaf: its text, with a string quoted.
    pub fn visit_primary(&self, value: &Literal) -> (r: String)
        ensures
            r@ == value@.quoted_text(),
    {
        match value {
            Literal::String(s) => quoted(s),
            _ => value.to_string(),
        }
    }

    /// An object: its delimiters around its properties, side by side.
    pub fn visit_object(&self, left: &Token, properties: &Vec<Node>, right: &Token) -> (r: String)
        ensures
            r@ == left.literal@.text() + compact_all(nodes_trees(properties@))
                + right.literal@.text(),
        decreases properties, 1int,
    {
        let mut buf = left.literal.to_string();
        let inner = self.visit_all(properties);
        buf.append(inner.as_str());
        buf.append(right.literal.to_string().as_str());
        buf
    }

    /// A property: its key, its colon and its value, side by side.
    pub fn visit_property(&self, key: &Token, colon: &Token, value: &Node) -> (r: String)
        ensures
            r@ == key.literal@.text() + colon.literal@.text() + compact(value@),
        decreases value, 1int,
    {
        let mut buf = key.literal.to_string();
        buf.append(colon.literal.to_string().as_str());
        buf.append(value.accept(self).as_str());
        buf
    }

    /// A list: its delimiters around its elements, side by side.
    pub fn visit_list(&self, left: &Token, nodes: &Vec<Node>, right: &Token) -> (r: String)
        ensures
            r@ == left.literal@.text() + compact_all(nodes_trees(nodes@)) + right.literal@.text(),
        decreases nodes, 1int,
    {
        let mut buf = left.literal.to_string();
        let inner = self.visit_all(nodes);
        buf.append(inner.as_str());
        buf.append(right.literal.to_string().as_str());
        buf
    }

    fn visit_all(&self, ns: &Vec<Node>) -> (r: String)
        ensures
            r@ == compact_all(nodes_trees(ns@)),
        decreases ns, 0int,
    {
        let ghost ts = nodes_trees(ns@);
        proof {
            lemma_nodes_trees(ns@);
            assert(ts.subrange(0, 0) =~= Seq::<Tree>::empty());
        }
        let mut buf = String::new();
        let mut i: usize = 0;
        while i < ns.len()
            invariant
                i <= ns.len(),
                ts == nodes_trees(ns@),
                ts.len() == ns.len(),
                forall|j: int| 0 <= j < ns.len() ==> #[trigger] ts[j] == ns@[j]@,
                buf@ == compact_all(ts.subrange(0, i as int)),
            decreases ns.len() - i,
        {
            proof {
                assert(decreases_to!(ns => ns[i as int]));
            }
            let s = ns[i].accept(self);
            buf.append(s.as_str());
            proof {
                assert(ts.subrange(0, i + 1).subrange(0, i as int) =~= ts.subrange(0, i as int));
            }
            i = i + 1;
        }
        proof {
            assert(ts.subrange(0, ns.len() as int) =~= ts);
        }
        buf
    }

    fn trav(&self, node: &Node, indent: &String, Ghost(depth): Ghost<nat>) -> (r: String)
        requires
            indent@ == spaces(4 * depth),
        ensures
            r@ == indented(node@, depth),
        decreases node,
    {
        match node {
            Node::Primary(literal) => self.visit_primary(literal),
            Node::Property(key, colon, value) => {
                let mut buf = quoted(&key.literal.to_string());
                buf.append(colon.literal.to_string().as_str());
                buf.append(" ");
                let rest = self.trav(value, indent, Ghost(depth));
                buf.append(rest.as_str());
                proof {
                    reveal_strlit(" ");
                    assert(buf@ =~= indented(node@, depth));
                }
                buf
            },
            Node::Object(open, ps, close) => {
                proof {
                    lemma_nodes_trees(ps@);
                }
                self.trav_container(open, ps, close, indent, Ghost(depth))
            },
            Node::List(open, es, close) => {
                proof {
                    lemma_nodes_trees(es@);
                }
                self.trav_container(open, es, close, indent, Ghost(depth))
            },
        }
    }
    fn trav_container(
        &self,
        open: &Token,
        ns: &Vec<Node>,
        close: &Token,
        indent: &String,
        Ghost(depth): Ghost<nat>,
    ) -> (r: String)
        requires
            indent@ == spaces(4 * depth),
        ensures
            r@ == enclosed(
                open.literal@.text(),
                ns@.len(),
                child_lines(nodes_trees(ns@), ns@.len(), depth + 1),
                close.literal@.text(),
                depth,
            ),
        decreases ns,
    {
        let ghost ts = nodes_trees(ns@);
        proof {
            lemma_nodes_trees(ns@);
        }
        let mut buf = open.literal.to_string();
        if ns.len() == 0 {
            buf.append(close.literal.to_string().as_str());
            return buf;
        }
        let ghost head = buf@ + seq!['\n'];
        buf.append("\n");
        let mut inner = indent.clone();
        inner.append("    ");
        proof {
            reveal_strlit("\n");
            reveal_strlit("    ");
            assert(buf@ =~= head);
            assert(inner@ =~= spaces(4 * (depth + 1)));
            assert(head + child_lines(ts, 0, depth + 1) =~= head);
        }
        let mut i: usize = 0;
        while i < ns.len()
            invariant
                i <= ns.len(),
                ts == nodes_trees(ns@),
                ts.len() == ns.len(),
                forall|j: int| 0 <= j < ns.len() ==> #[trigger] ts[j] == ns@[j]@,
                inner@ == spaces(4 * (depth + 1)),
                buf@ == head + child_lines(ts, i as nat, depth + 1),
            decreases ns.len() - i,
        {
            proof {
                assert(decreases_to!(ns => ns[i as int]));
            }
            let child = self.trav(&ns[i], &inner, Ghost(depth + 1));
            buf.append(inner.as_str());
            buf.append(child.as_str());
            if i + 1 < ns.len() {
                buf.append(",");
            }
            buf.append("\n");
            proof {
                reveal_strlit(",");
                reveal_strlit("\n");
                assert(buf@ =~= head + child_lines(ts, (i + 1) as nat, depth + 1));
            }
            i = i + 1;
        }
        buf.append(indent.as_str());
        buf.append(close.literal.to_string().as_str());
        proof {
            assert(buf@ =~= enclosed(
                open.literal@.text(),
                ns@.len(),
                child_lines(ts, ns@.len(), depth + 1),
                close.literal@.text(),
                depth,
            ));
        }
        buf
    }
}

/// `s` between two double quotes.
fn quoted(s: &String) -> (r: String)
    ensures
        r@ == quote(s@),
{
    let mut buf = String::from_str("\"");
    buf.append(s.as_str());
    buf.append("\"");
    proof {
        reveal_strlit("\"");
        assert(buf@ =~= quote(s@));
    }
    buf
}

impl Node {
    /// The compact rendering of the node by `visitor`: the node's variant
    /// decides which of its methods renders it.
    pub fn accept(&self, visitor: &PrettyPrint) -> (r: String)
        ensures
            r@ == compact(self@),
        decreases self, 0int,
    {
        match self {
            Node::Primary(value) => visitor.visit_primary(value),
            Node::Object(left, properties, right) => visitor.visit_object(left, properties, right),
            Node::Property(key, colon, value) => visitor.visit_property(key, colon, value),
            Node::List(left, nodes, right) => visitor.visit_list(left, nodes, right),
        }
    }
}

} // verus!
