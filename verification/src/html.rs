//! Turns a forest into HTML by the names of its elements.

use vstd::prelude::*;
use vstd::utf8::encode_utf8;
use crate::delimiter::{Delimiter, Direction};
use crate::node::{forest_view, lemma_forest_view_empty, lemma_forest_view_push, Elem, Node, Tree};
use crate::text::{is_literal, spec_is_literal};

verus! {

/// The name of the element that stands for its grandchildren: a plus sign.
pub open spec fn is_splice(name: Seq<u8>) -> bool {
    name == seq![43u8]
}

/// Whether an element is kept as it is written: it has no name, or a name
/// that ends in an equals sign.
pub open spec fn is_kept(name: Seq<u8>) -> bool {
    name.len() == 0 || name.last() == 61
}

/// The HTML of one tree. A text is itself. A literal element is its
/// children. An element that is kept is its name and its children between
/// its own delimiters. A splice is the children of those of its children
/// that are elements. Any other element is its children between an opening
/// and a closing tag of its name.
pub open spec fn html_tree(tree: Tree) -> Seq<u8>
    decreases tree,
{
    match tree {
        Tree::Text(text) => text,
        Tree::Elem(elem) => if spec_is_literal(elem.name) {
            html_forest(elem.children)
        } else if is_kept(elem.name) {
            elem.name + seq![Delimiter(Direction::Open, elem.delim).byte()] + html_forest(
                elem.children,
            ) + seq![Delimiter(Direction::Close, elem.delim).byte()]
        } else if is_splice(elem.name) {
            html_spliced(elem.children)
        } else {
            encode_utf8("<"@) + elem.name + encode_utf8(">"@) + html_forest(elem.children)
                + encode_utf8("</"@) + elem.name + encode_utf8(">"@)
        },
    }
}

/// The HTML of the trees of `forest`, one after the other.
pub open spec fn html_forest(forest: Seq<Tree>) -> Seq<u8>
    decreases forest,
{
    if forest.len() == 0 {
        Seq::empty()
    } else {
        html_forest(forest.drop_last()) + html_tree(forest.last())
    }
}

/// The HTML of the children of those trees of `forest` that are elements.
pub open spec fn html_spliced(forest: Seq<Tree>) -> Seq<u8>
    decreases forest,
{
    if forest.len() == 0 {
        Seq::empty()
    } else {
        html_spliced(forest.drop_last()) + match forest.last() {
            Tree::Text(_) => Seq::empty(),
            Tree::Elem(elem) => html_forest(elem.children),
        }
    }
}

/// Appends the HTML of the children of `elem` to `f`.
pub fn write_children(f: &mut Vec<u8>, elem: &Elem)
    ensures
        final(f)@ == old(f)@ + html_forest(elem@.children),
    decreases elem, 0nat,
{
    let mut i: usize = 0;
    proof {
        assert(elem.children@.subrange(0, 0) =~= Seq::<Node>::empty());
        lemma_forest_view_empty();
        assert(f@ =~= old(f)@ + Seq::<u8>::empty());
    }
    while i < elem.children.len()
        invariant
            i <= elem.children.len(),
            f@ == old(f)@ + html_forest(forest_view(elem.children@.subrange(0, i as int))),
        decreases elem.children.len() - i,
    {
        let ghost done = forest_view(elem.children@.subrange(0, i as int));
        write_html(&elem.children[i], f);
        proof {
            let child = elem.children@[i as int];
            lemma_forest_view_push(elem.children@.subrange(0, i as int), child);
            assert(elem.children@.subrange(0, i + 1) =~= elem.children@.subrange(0, i as int).push(
                child,
            ));
            assert(done.push(child@).drop_last() =~= done);
            assert(f@ =~= old(f)@ + html_forest(done.push(child@)));
        }
        i = i + 1;
    }
    proof {
        assert(elem.children@.subrange(0, elem.children@.len() as int) =~= elem.children@);
    }
}

/// Appends to `f` the HTML of the children of those children of `elem`
/// that are elements.
fn write_spliced(f: &mut Vec<u8>, elem: &Elem)
    ensures
        final(f)@ == old(f)@ + html_spliced(elem@.children),
    decreases elem, 1nat,
{
    let mut i: usize = 0;
    proof {
        assert(elem.children@.subrange(0, 0) =~= Seq::<Node>::empty());
        lemma_forest_view_empty();
        assert(f@ =~= old(f)@ + Seq::<u8>::empty());
    }
    while i < elem.children.len()
        invariant
            i <= elem.children.len(),
            f@ == old(f)@ + html_spliced(forest_view(elem.children@.subrange(0, i as int))),
        decreases elem.children.len() - i,
    {
        let ghost done = forest_view(elem.children@.subrange(0, i as int));
        match &elem.children[i] {
            Node::Elem(inner) => {
                write_children(f, inner);
            },
            Node::Text(_) => {},
        }
        proof {
            let child = elem.children@[i as int];
            lemma_forest_view_push(elem.children@.subrange(0, i as int), child);
            assert(elem.children@.subrange(0, i + 1) =~= elem.children@.subrange(0, i as int).push(
                child,
            ));
            assert(done.push(child@).drop_last() =~= done);
            assert(f@ =~= old(f)@ + html_spliced(done.push(child@)));
        }
        i = i + 1;
    }
    proof {
        assert(elem.children@.subrange(0, elem.children@.len() as int) =~= elem.children@);
    }
}

/// Appends the HTML of `node` to `f`. Nothing is escaped.
pub fn write_html(node: &Node, f: &mut Vec<u8>)
    ensures
        final(f)@ == old(f)@ + html_tree(node@),
    decreases node, 2nat,
{
    match node {
        Node::Text(t) => {
            f.extend_from_slice(t.as_bytes());
            proof {
                assert(f@ =~= old(f)@ + t@);
            }
        },
        Node::Elem(elem) => {
            let name = elem.name.as_bytes();
            if is_literal(name) {
                write_children(f, elem);
            } else if name.len() == 0 || name[name.len() - 1] == 61 {
                f.extend_from_slice(name);
                f.push(elem.delim.open().as_u8());
                write_children(f, elem);
                f.push(elem.delim.close().as_u8());
                proof {
                    assert(f@ =~= old(f)@ + html_tree(node@));
                }
            } else if name.len() == 1 && name[0] == 43 {
                proof {
                    assert(name@ =~= seq![43u8]);
                }
                write_spliced(f, elem);
            } else {
                f.extend_from_slice("<".as_bytes());
                f.extend_from_slice(name);
                f.extend_from_slice(">".as_bytes());
                write_children(f, elem);
                f.extend_from_slice("</".as_bytes());
                f.extend_from_slice(name);
                f.extend_from_slice(">".as_bytes());
                proof {
                    assert(f@ =~= old(f)@ + html_tree(node@));
                }
            }
        },
    }
}

/// The HTML of the forest `nodes`.
pub fn to_html(nodes: &[Node]) -> (r: Vec<u8>)
    ensures
        r@ == html_forest(forest_view(nodes@)),
{
    let mut out: Vec<u8> = Vec::new();
    let mut i: usize = 0;
    proof {
        assert(nodes@.subrange(0, 0) =~= Seq::<Node>::empty());
        lemma_forest_view_empty();
    }
    while i < nodes.len()
        invariant
            i <= nodes@.len(),
            out@ == html_forest(forest_view(nodes@.subrange(0, i as int))),
        decreases nodes@.len() - i,
    {
        let ghost done = forest_view(nodes@.subrange(0, i as int));
        write_html(&nodes[i], &mut out);
        proof {
            let child = nodes@[i as int];
            lemma_forest_view_push(nodes@.subrange(0, i as int), child);
            assert(nodes@.subrange(0, i + 1) =~= nodes@.subrange(0, i as int).push(child));
            assert(done.push(child@).drop_last() =~= done);
        }
        i = i + 1;
    }
    proof {
        assert(nodes@.subrange(0, nodes@.len() as int) =~= nodes@);
    }
    out
}

} // verus!
