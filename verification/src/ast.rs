//! The abstract syntax tree.
//!
//! One `Node` per statement: facts with optional argument chains, rules with
//! a boolean-connective body, queries, and the leaf atoms and variables.
//! `to_string` renders a node so that the rendering tokenizes and parses back
//! to the same tree.

use vstd::prelude::*;

verus! {

/// An AST node. Each node owns its children outright: the tree is never
/// shared and never cyclic.
#[derive(Debug, PartialEq)]
pub enum Node {
    Query(Box<Node>),
    Fact(String, Option<Box<Node>>),
    Atoms(Box<Node>, Option<Box<Node>>),
    Rule(Box<Node>, Box<Node>),
    And(Box<Node>, Box<Node>),
    Or(Box<Node>, Box<Node>),
    Neg(Box<Node>),
    Atom(String),
    Variable(String),
}

/// The mathematical image of an AST node, with identifier text as character
/// sequences.
pub enum NodeView {
    Query(Box<NodeView>),
    Fact(Seq<char>, Option<Box<NodeView>>),
    Atoms(Box<NodeView>, Option<Box<NodeView>>),
    Rule(Box<NodeView>, Box<NodeView>),
    And(Box<NodeView>, Box<NodeView>),
    Or(Box<NodeView>, Box<NodeView>),
    Neg(Box<NodeView>),
    Atom(Seq<char>),
    Variable(Seq<char>),
}

impl View for Node {
    type V = NodeView;

    open spec fn view(&self) -> NodeView
        decreases self,
    {
        match self {
            Node::Query(x) => NodeView::Query(Box::new((**x).view())),
            Node::Fact(x, args) => NodeView::Fact(
                x@,
                match args {
                    Some(a) => Some(Box::new((**a).view())),
                    None => None,
                },
            ),
            Node::Atoms(h, t) => NodeView::Atoms(
                Box::new((**h).view()),
                match t {
                    Some(a) => Some(Box::new((**a).view())),
                    None => None,
                },
            ),
            Node::Rule(h, b) => NodeView::Rule(Box::new((**h).view()), Box::new((**b).view())),
            Node::And(x, y) => NodeView::And(Box::new((**x).view()), Box::new((**y).view())),
            Node::Or(x, y) => NodeView::Or(Box::new((**x).view()), Box::new((**y).view())),
            Node::Neg(x) => NodeView::Neg(Box::new((**x).view())),
            Node::Atom(x) => NodeView::Atom(x@),
            Node::Variable(x) => NodeView::Variable(x@),
        }
    }
}

/// Each node's image is the constructor the node bears: matching on a node
/// settles which variant its view is.
pub proof fn lemma_node_view_cases(n: &Node)
    ensures
        (n@ is Query <==> n is Query),
        (n@ is Fact <==> n is Fact),
        (n@ is Atoms <==> n is Atoms),
        (n@ is Rule <==> n is Rule),
        (n@ is And <==> n is And),
        (n@ is Or <==> n is Or),
        (n@ is Neg <==> n is Neg),
        (n@ is Atom <==> n is Atom),
        (n@ is Variable <==> n is Variable),
{
    match n {
        Node::Query(_) => {},
        Node::Fact(_, _) => {},
        Node::Atoms(_, _) => {},
        Node::Rule(_, _) => {},
        Node::And(_, _) => {},
        Node::Or(_, _) => {},
        Node::Neg(_) => {},
        Node::Atom(_) => {},
        Node::Variable(_) => {},
    }
}

/// The text a node renders to.
///
/// Connective nodes are parenthesized infix groups, facts and argument
/// chains print exactly as they are written, and queries and rules carry
/// their statement terminator, so a rendering tokenizes and parses back to
/// the node it came from.
pub open spec fn render(n: NodeView) -> Seq<char>
    decreases n,
{
    match n {
        NodeView::Atom(x) => x,
        NodeView::Variable(x) => x,
        NodeView::And(x, y) => seq!['('] + render(*x) + seq!['\u{2227}'] + render(*y) + seq![')'],
        NodeView::Or(x, y) => seq!['('] + render(*x) + seq!['\u{2228}'] + render(*y) + seq![')'],
        NodeView::Neg(x) => seq!['\u{00AC}'] + render(*x),
        NodeView::Query(f) => seq!['?'] + render(*f) + seq!['.'],
        NodeView::Fact(x, Some(args)) => x + seq!['('] + render(*args) + seq![')'],
        NodeView::Fact(x, None) => x,
        NodeView::Atoms(h, Some(t)) => render(*h) + seq![','] + render(*t),
        NodeView::Atoms(h, None) => render(*h),
        NodeView::Rule(h, b) => render(*h) + seq![':', '-'] + render(*b) + seq!['.'],
    }
}

impl Node {
    /// Renders the node as text.
    pub fn to_string(&self) -> (r: String)
        ensures
            r@ == render(self@),
        decreases self,
    {
        match self {
            Node::Atom(x) => x.clone(),
            Node::Variable(x) => x.clone(),
            Node::And(x, y) => {
                let xs = x.to_string();
                let ys = y.to_string();
                let mut r = String::from_str("(");
                r.append(xs.as_str());
                r.append("\u{2227}");
                r.append(ys.as_str());
                r.append(")");
                proof {
                    reveal_strlit("(");
                    reveal_strlit("\u{2227}");
                    reveal_strlit(")");
                    assert(r@ =~= render(self@));
                }
                r
            },
            Node::Or(x, y) => {
                let xs = x.to_string();
                let ys = y.to_string();
                let mut r = String::from_str("(");
                r.append(xs.as_str());
                r.append("\u{2228}");
                r.append(ys.as_str());
                r.append(")");
                proof {
                    reveal_strlit("(");
                    reveal_strlit("\u{2228}");
                    reveal_strlit(")");
                    assert(r@ =~= render(self@));
                }
                r
            },
            Node::Neg(x) => {
                let xs = x.to_string();
                let mut r = String::from_str("\u{00AC}");
                r.append(xs.as_str());
                proof {
                    reveal_strlit("\u{00AC}");
                    assert(r@ =~= render(self@));
                }
                r
            },
            Node::Query(f) => {
                let fs = f.to_string();
                let mut r = String::from_str("?");
                r.append(fs.as_str());
                r.append(".");
                proof {
                    reveal_strlit("?");
                    reveal_strlit(".");
                    assert(r@ =~= render(self@));
                }
                r
            },
            Node::Fact(x, Some(args)) => {
                let ars = args.to_string();
                let mut r = x.clone();
                r.append("(");
                r.append(ars.as_str());
                r.append(")");
                proof {
                    reveal_strlit("(");
                    reveal_strlit(")");
                    assert(r@ =~= render(self@));
                }
                r
            },
            Node::Fact(x, None) => x.clone(),
            Node::Atoms(h, Some(t)) => {
                let hs = h.to_string();
                let ts = t.to_string();
                let mut r = hs;
                r.append(",");
                r.append(ts.as_str());
                proof {
                    reveal_strlit(",");
                    assert(r@ =~= render(self@));
                }
                r
            },
            Node::Atoms(h, None) => h.to_string(),
            Node::Rule(h, b) => {
                let hs = h.to_string();
                let bs = b.to_string();
                let mut r = hs;
                r.append(":-");
                r.append(bs.as_str());
                r.append(".");
                proof {
                    reveal_strlit(":-");
                    reveal_strlit(".");
                    assert(r@ =~= render(self@));
                }
                r
            },
        }
    }
}

} // verus!
