//! The tree that a text is read into: text nodes and named elements.

use vstd::prelude::*;
use vstd::utf8::encode_utf8;
use crate::blob::Blob;
use crate::delimiter::{Delim, Delimiter, Direction};
use crate::loc::{Loc, LocView};
use crate::text::ESCAPER;

verus! {

/// A named element: the kind of bracket that opened it, what stands between
/// its brackets, and the place of its opening tag.
#[derive(Debug)]
pub struct Elem {
    pub name: Blob,
    pub delim: Delim,
    pub children: Vec<Node>,
    pub loc: Loc,
}

/// A run of text, or an element.
#[derive(Debug)]
pub enum Node {
    Text(Blob),
    Elem(Elem),
}

/// The mathematical value of an [`Elem`].
pub struct ElemView {
    pub name: Seq<u8>,
    pub delim: Delim,
    pub children: Seq<Tree>,
    pub loc: LocView,
}

/// The mathematical value of a [`Node`].
pub enum Tree {
    Text(Seq<u8>),
    Elem(ElemView),
}

/// The value of a node.
pub open spec fn tree_of(node: Node) -> Tree
    decreases node,
{
    match node {
        Node::Text(text) => Tree::Text(text@),
        Node::Elem(elem) => Tree::Elem(
            ElemView {
                name: elem.name@,
                delim: elem.delim,
                children: forest_view(elem.children@),
                loc: elem.loc@,
            },
        ),
    }
}

/// The values of a list of nodes, in order.
pub open spec fn forest_view(nodes: Seq<Node>) -> Seq<Tree>
    decreases nodes,
{
    Seq::new(
        nodes.len(),
        |i: int|
            if 0 <= i < nodes.len() {
                tree_of(nodes[i])
            } else {
                Tree::Text(Seq::empty())
            },
    )
}

impl View for Node {
    type V = Tree;

    open spec fn view(&self) -> Tree {
        tree_of(*self)
    }
}

impl View for Elem {
    type V = ElemView;

    open spec fn view(&self) -> ElemView {
        ElemView {
            name: self.name@,
            delim: self.delim,
            children: forest_view(self.children@),
            loc: self.loc@,
        }
    }
}

/// The value of the empty list is the empty forest.
pub proof fn lemma_forest_view_empty()
    ensures
        forest_view(Seq::empty()) == Seq::<Tree>::empty(),
{
    assert(forest_view(Seq::empty()) =~= Seq::<Tree>::empty());
}

/// The value of a list grows with the list.
pub proof fn lemma_forest_view_push(nodes: Seq<Node>, node: Node)
    ensures
        forest_view(nodes.push(node)) == forest_view(nodes).push(node@),
{
    assert(forest_view(nodes.push(node)) =~= forest_view(nodes).push(node@));
}

/// The value of two lists joined is the two values joined.
pub proof fn lemma_forest_view_concat(a: Seq<Node>, b: Seq<Node>)
    ensures
        forest_view(a + b) == forest_view(a) + forest_view(b),
{
    assert(forest_view(a + b) =~= forest_view(a) + forest_view(b));
}

/// The marker that stands for an opening delimiter which opens nothing: a
/// literal element whose name is the bare escape marker and whose only
/// child is the delimiter's character.
pub open spec fn escaped(delim: Delimiter) -> Tree {
    Tree::Elem(
        ElemView {
            name: seq![ESCAPER],
            delim: Delim::Parenthesis,
            children: seq![Tree::Text(seq![delim.byte()])],
            loc: LocView::start(Seq::empty()),
        },
    )
}

impl ElemView {
    /// An element that was never closed, taken apart: its name as text, the
    /// marker for its opening delimiter, then its children.
    pub open spec fn melted(self) -> Seq<Tree> {
        seq![Tree::Text(self.name), escaped(Delimiter(Direction::Open, self.delim))]
            + self.children
    }
}

/// The marker node for a delimiter that is to be read as text.
pub fn escape_delim(delim: Delimiter) -> (r: Node)
    ensures
        r@ == escaped(delim),
{
    let mut name: Vec<u8> = Vec::new();
    name.push(ESCAPER);
    let mut text: Vec<u8> = Vec::new();
    text.push(delim.as_u8());
    let mut children: Vec<Node> = Vec::new();
    children.push(Node::Text(Blob::from(text)));
    let elem = Elem {
        name: Blob::from(name),
        delim: Delim::Parenthesis,
        children,
        loc: Loc::default(),
    };
    proof {
        assert(name@ =~= seq![ESCAPER]);
        assert(text@ =~= seq![delim.byte()]);
        assert(elem@.children =~= seq![Tree::Text(seq![delim.byte()])]);
    }
    Node::Elem(elem)
}

impl Elem {
    /// Melts the element into a mix of text nodes and child nodes. The
    /// closing delimiter is not included.
    pub fn into_text_nodes(self) -> (r: Vec<Node>)
        ensures
            forest_view(r@) == self@.melted(),
    {
        let ghost whole = self@;
        let Elem { name, delim, children, loc: _ } = self;
        let mut children = children;
        let mut nodes: Vec<Node> = Vec::new();
        nodes.push(Node::Text(name));
        nodes.push(escape_delim(delim.open()));
        proof {
            assert(forest_view(nodes@) =~= seq![
                Tree::Text(whole.name),
                escaped(Delimiter(Direction::Open, whole.delim)),
            ]);
            lemma_forest_view_concat(nodes@, children@);
        }
        nodes.append(&mut children);
        nodes
    }
}

impl Clone for Elem {
    /// A copy of the element and of all below it; the texts are shared.
    fn clone(&self) -> (r: Elem)
        ensures
            r@ == self@,
        decreases self,
    {
        let mut children: Vec<Node> = Vec::new();
        let mut i: usize = 0;
        while i < self.children.len()
            invariant
                i <= self.children.len(),
                forest_view(children@) == forest_view(self.children@.subrange(0, i as int)),
            decreases self.children.len() - i,
        {
            proof {
                lemma_forest_view_push(children@, self.children@[i as int]);
                assert(self.children@.subrange(0, i + 1) =~= self.children@.subrange(
                    0,
                    i as int,
                ).push(self.children@[i as int]));
            }
            let child = self.children[i].clone();
            proof {
                lemma_forest_view_push(children@, child);
            }
            children.push(child);
            i = i + 1;
        }
        proof {
            assert(self.children@.subrange(0, self.children@.len() as int) =~= self.children@);
        }
        Elem { name: self.name.clone(), delim: self.delim, children, loc: self.loc.clone() }
    }
}

impl Clone for Node {
    /// A copy of the node and of all below it; the texts are shared.
    fn clone(&self) -> (r: Node)
        ensures
            r@ == self@,
        decreases self,
    {
        match self {
            Node::Text(text) => Node::Text(text.clone()),
            Node::Elem(elem) => Node::Elem(elem.clone()),
        }
    }
}

impl<'a> From<&'a [u8]> for Node {
    /// A text node that holds a copy of `s`.
    fn from(s: &'a [u8]) -> (r: Node)
        ensures
            r@ == Tree::Text(s@),
    {
        Node::Text(Blob::from(s))
    }
}

impl<'a> vstd::std_specs::convert::FromSpecImpl<&'a [u8]> for Node {
    open spec fn obeys_from_spec() -> bool {
        false
    }

    open spec fn from_spec(s: &'a [u8]) -> Node {
        arbitrary()
    }
}

impl<'a> From<&'a str> for Node {
    /// A text node that holds the bytes of `s`.
    fn from(s: &'a str) -> (r: Node)
        ensures
            r@ == Tree::Text(encode_utf8(s@)),
    {
        Node::Text(Blob::from(s))
    }
}

impl<'a> vstd::std_specs::convert::FromSpecImpl<&'a str> for Node {
    open spec fn obeys_from_spec() -> bool {
        false
    }

    open spec fn from_spec(s: &'a str) -> Node {
        arbitrary()
    }
}

} // verus!
