//! Writes a forest back as text.

use vstd::prelude::*;
use crate::delimiter::{Delimiter, Direction};
use crate::node::{forest_view, Elem, Node, Tree};
use crate::text::{is_literal, is_word_char, spec_is_literal, spec_is_word_char, DIVIDER};

verus! {

/// What the writer remembers from one node to the next: whether the text
/// written last ended in a word character.
#[derive(Clone, Copy, Debug, PartialEq, Eq, Structural)]
pub enum NodeWriteState {
    Clean,
    Sticky,
}

/// The state after a text node: sticky if the text ends in a word
/// character.
pub open spec fn state_after_text(text: Seq<u8>) -> NodeWriteState {
    if text.len() > 0 && spec_is_word_char(text.last()) {
        NodeWriteState::Sticky
    } else {
        NodeWriteState::Clean
    }
}

/// The divider, where the state asks for one before an element.
pub open spec fn divider_if(state: NodeWriteState) -> Seq<u8> {
    if state == NodeWriteState::Sticky {
        seq![DIVIDER]
    } else {
        Seq::empty()
    }
}

/// The name again, where the element is literal: it closes only after its
/// own name.
pub open spec fn fence_of(name: Seq<u8>) -> Seq<u8> {
    if spec_is_literal(name) {
        name
    } else {
        Seq::empty()
    }
}

/// What is written for `tree` in the state `state`, and the state after it.
/// A text is written as it stands. An element is written as a divider, if
/// the state is sticky, then its name, its opening delimiter, its children
/// in the state that the element met, its name once more if it is literal,
/// and its closing delimiter; after it the state is clean.
pub open spec fn written_tree(tree: Tree, state: NodeWriteState) -> (Seq<u8>, NodeWriteState)
    decreases tree,
{
    match tree {
        Tree::Text(text) => (text, state_after_text(text)),
        Tree::Elem(elem) => (
            divider_if(state) + elem.name + seq![Delimiter(Direction::Open, elem.delim).byte()]
                + written_forest(elem.children, state).0 + fence_of(elem.name) + seq![
                Delimiter(Direction::Close, elem.delim).byte(),
            ],
            NodeWriteState::Clean,
        ),
    }
}

/// What is written for the trees of `forest`, one after the other, beginning
/// in the state `state`, and the state after the last of them.
pub open spec fn written_forest(forest: Seq<Tree>, state: NodeWriteState) -> (
    Seq<u8>,
    NodeWriteState,
)
    decreases forest,
{
    if forest.len() == 0 {
        (Seq::empty(), state)
    } else {
        let (head, between) = written_forest(forest.drop_last(), state);
        let (last, after) = written_tree(forest.last(), between);
        (head + last, after)
    }
}

/// The text of a forest.
pub open spec fn rendered(forest: Seq<Tree>) -> Seq<u8> {
    written_forest(forest, NodeWriteState::Clean).0
}

/// Writing a forest that grew by one tree is writing the forest, then the
/// tree in the state that the forest left.
pub proof fn lemma_written_push(forest: Seq<Tree>, tree: Tree, state: NodeWriteState)
    ensures
        written_forest(forest.push(tree), state).0 == written_forest(forest, state).0
            + written_tree(tree, written_forest(forest, state).1).0,
        written_forest(forest.push(tree), state).1 == written_tree(
            tree,
            written_forest(forest, state).1,
        ).1,
{
    assert(forest.push(tree).drop_last() =~= forest);
}

/// Writing two forests joined is writing the first, then the second in the
/// state that the first left.
pub proof fn lemma_written_concat(a: Seq<Tree>, b: Seq<Tree>, state: NodeWriteState)
    ensures
        written_forest(a + b, state).0 == written_forest(a, state).0 + written_forest(
            b,
            written_forest(a, state).1,
        ).0,
        written_forest(a + b, state).1 == written_forest(b, written_forest(a, state).1).1,
    decreases b.len(),
{
    if b.len() == 0 {
        assert(a + b =~= a);
        assert(written_forest(a, state).0 + Seq::<u8>::empty() =~= written_forest(a, state).0);
    } else {
        lemma_written_concat(a, b.drop_last(), state);
        assert((a + b).drop_last() =~= a + b.drop_last());
        assert((a + b).last() == b.last());
        let between = written_forest(a, state).1;
        let inner = written_forest(b.drop_last(), between);
        assert((written_forest(a, state).0 + inner.0) + written_tree(b.last(), inner.1).0
            =~= written_forest(a, state).0 + (inner.0 + written_tree(b.last(), inner.1).0));
    }
}

/// Something that can be written to a buffer, given what the writer
/// remembers.
pub trait WriteTo {
    /// What the writer remembers between two writes.
    type State;

    /// What is written in the state `state`, and the state after it.
    spec fn written(&self, state: Self::State) -> (Seq<u8>, Self::State);

    /// Appends `self` to `f` and moves `s` on.
    fn write_to(&self, f: &mut Vec<u8>, s: &mut Self::State)
        ensures
            final(f)@ == old(f)@ + self.written(*old(s)).0,
            *final(s) == self.written(*old(s)).1,
    ;
}

/// Writes `x`, beginning in the state `s`, and hands back what was written.
pub fn write_to_vec<T: WriteTo + ?Sized>(x: &T, s: &mut T::State) -> (r: Vec<u8>)
    ensures
        r@ == x.written(*old(s)).0,
        *final(s) == x.written(*old(s)).1,
{
    let mut v: Vec<u8> = Vec::new();
    x.write_to(&mut v, s);
    proof {
        assert(v@ =~= x.written(*old(s)).0);
    }
    v
}

impl WriteTo for [u8] {
    type State = ();

    open spec fn written(&self, state: ()) -> (Seq<u8>, ()) {
        (self@, ())
    }

    fn write_to(&self, f: &mut Vec<u8>, s: &mut ()) {
        f.extend_from_slice(self);
        proof {
            assert(f@ =~= old(f)@ + self@);
        }
    }
}

/// Appends `node` to `f` as text and moves `s` on.
fn write_node(node: &Node, f: &mut Vec<u8>, s: &mut NodeWriteState)
    ensures
        final(f)@ == old(f)@ + written_tree(node@, *old(s)).0,
        *final(s) == written_tree(node@, *old(s)).1,
    decreases node,
{
    match node {
        Node::Text(t) => {
            let bytes = t.as_bytes();
            f.extend_from_slice(bytes);
            if bytes.len() > 0 && is_word_char(bytes[bytes.len() - 1]) {
                *s = NodeWriteState::Sticky;
            } else {
                *s = NodeWriteState::Clean;
            }
            proof {
                assert(f@ =~= old(f)@ + t@);
            }
        },
        Node::Elem(elem) => {
            match *s {
                NodeWriteState::Sticky => {
                    f.push(DIVIDER);
                },
                NodeWriteState::Clean => {},
            }
            f.extend_from_slice(elem.name.as_bytes());
            f.push(elem.delim.open().as_u8());
            let ghost head = f@;
            write_children(elem, f, s);
            if is_literal(elem.name.as_bytes()) {
                f.extend_from_slice(elem.name.as_bytes());
            }
            f.push(elem.delim.close().as_u8());
            *s = NodeWriteState::Clean;
            proof {
                assert(head =~= old(f)@ + divider_if(*old(s)) + elem.name@ + seq![
                    Delimiter(Direction::Open, elem.delim).byte(),
                ]);
                assert(f@ =~= old(f)@ + written_tree(node@, *old(s)).0);
            }
        },
    }
}

/// Appends the children of `elem` to `f` as text and moves `s` on.
fn write_children(elem: &Elem, f: &mut Vec<u8>, s: &mut NodeWriteState)
    ensures
        final(f)@ == old(f)@ + written_forest(elem@.children, *old(s)).0,
        *final(s) == written_forest(elem@.children, *old(s)).1,
    decreases elem,
{
    let mut i: usize = 0;
    proof {
        assert(elem.children@.subrange(0, 0) =~= Seq::<Node>::empty());
        crate::node::lemma_forest_view_empty();
        assert(f@ =~= old(f)@ + Seq::<u8>::empty());
    }
    while i < elem.children.len()
        invariant
            i <= elem.children.len(),
            f@ == old(f)@ + written_forest(
                forest_view(elem.children@.subrange(0, i as int)),
                *old(s),
            ).0,
            *s == written_forest(forest_view(elem.children@.subrange(0, i as int)), *old(s)).1,
        decreases elem.children.len() - i,
    {
        let ghost done = forest_view(elem.children@.subrange(0, i as int));
        write_node(&elem.children[i], f, s);
        proof {
            let child = elem.children@[i as int];
            crate::node::lemma_forest_view_push(elem.children@.subrange(0, i as int), child);
            assert(elem.children@.subrange(0, i + 1) =~= elem.children@.subrange(0, i as int).push(
                child,
            ));
            lemma_written_push(done, child@, *old(s));
            assert(f@ =~= old(f)@ + written_forest(done.push(child@), *old(s)).0);
        }
        i = i + 1;
    }
    proof {
        assert(elem.children@.subrange(0, elem.children@.len() as int) =~= elem.children@);
    }
}

impl WriteTo for Node {
    type State = NodeWriteState;

    open spec fn written(&self, state: NodeWriteState) -> (Seq<u8>, NodeWriteState) {
        written_tree(self@, state)
    }

    fn write_to(&self, f: &mut Vec<u8>, s: &mut NodeWriteState) {
        write_node(self, f, s);
    }
}

impl WriteTo for [Node] {
    type State = NodeWriteState;

    open spec fn written(&self, state: NodeWriteState) -> (Seq<u8>, NodeWriteState) {
        written_forest(forest_view(self@), state)
    }

    fn write_to(&self, f: &mut Vec<u8>, s: &mut NodeWriteState) {
        let mut i: usize = 0;
        proof {
            assert(self@.subrange(0, 0) =~= Seq::<Node>::empty());
            crate::node::lemma_forest_view_empty();
            assert(f@ =~= old(f)@ + Seq::<u8>::empty());
        }
        while i < self.len()
            invariant
                i <= self@.len(),
                f@ == old(f)@ + written_forest(
                    forest_view(self@.subrange(0, i as int)),
                    *old(s),
                ).0,
                *s == written_forest(forest_view(self@.subrange(0, i as int)), *old(s)).1,
            decreases self@.len() - i,
        {
            let ghost done = forest_view(self@.subrange(0, i as int));
            write_node(&self[i], f, s);
            proof {
                let child = self@[i as int];
                crate::node::lemma_forest_view_push(self@.subrange(0, i as int), child);
                assert(self@.subrange(0, i + 1) =~= self@.subrange(0, i as int).push(child));
                lemma_written_push(done, child@, *old(s));
                assert(f@ =~= old(f)@ + written_forest(done.push(child@), *old(s)).0);
            }
            i = i + 1;
        }
        proof {
            assert(self@.subrange(0, self@.len() as int) =~= self@);
        }
    }
}

/// The text of the forest `nodes`. Where `nodes` was read from a well-formed
/// text without a redundant divider, what is written here is read and
/// written as itself.
pub fn render_doc(nodes: &[Node]) -> (r: Vec<u8>)
    ensures
        r@ == rendered(forest_view(nodes@)),
{
    let mut state = NodeWriteState::Clean;
    write_to_vec(nodes, &mut state)
}

} // verus!
