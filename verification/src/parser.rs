//! Builds the forest of a text from its tokens, and repairs what does not
//! fit: a closer of the wrong kind, a closer that closes nothing, an
//! element that is never closed.

use vstd::prelude::*;
use crate::blob::Blob;
use crate::delimiter::{Delim, Delimiter, Direction};
use crate::diagnostic::{
    are_shown_as, lemma_shown_push, mismatch_message, unclosed_message, unmatched_message,
    Diagnostic,
};
use crate::lexer::{tokens, Lexer, Token, TokenView};
use crate::loc::{Loc, LocView};
use crate::node::{
    escape_delim, escaped, forest_view, lemma_forest_view_concat, lemma_forest_view_empty,
    lemma_forest_view_push, Elem,
    ElemView, Node, Tree,
};
use crate::text::{bytes_eq, is_literal, spec_is_literal};

verus! {

/// The parser between two tokens: the elements that are open, outermost
/// first, the innermost of them apart as `top`, and the repairs made so far.
/// The outermost element is the text as a whole; it has no name and is
/// never literal.
pub struct ParseState {
    pub stack: Seq<ElemView>,
    pub top: ElemView,
    pub errs: Seq<Diagnostic>,
}

/// The elements of `open` melted one after the other.
pub open spec fn melt_all(open: Seq<ElemView>) -> Seq<Tree>
    decreases open.len(),
{
    if open.len() == 0 {
        Seq::empty()
    } else {
        melt_all(open.drop_last()) + open.last().melted()
    }
}

impl ParseState {
    /// The parser before the first token.
    pub open spec fn start() -> ParseState {
        ParseState {
            stack: Seq::empty(),
            top: ElemView {
                name: Seq::empty(),
                delim: Delim::Parenthesis,
                children: Seq::empty(),
                loc: LocView::start(Seq::empty()),
            },
            errs: Seq::empty(),
        }
    }

    /// The same state with one more child in the innermost open element.
    pub open spec fn add(self, child: Tree) -> ParseState {
        ParseState {
            stack: self.stack,
            top: ElemView {
                name: self.top.name,
                delim: self.top.delim,
                children: self.top.children.push(child),
                loc: self.top.loc,
            },
            errs: self.errs,
        }
    }

    /// The same state with one more repair on record.
    pub open spec fn report(self, diagnostic: Diagnostic) -> ParseState {
        ParseState { stack: self.stack, top: self.top, errs: self.errs.push(diagnostic) }
    }

    /// Whether a tag with this word is read as plain text: the innermost
    /// open element is literal, and the word is not its name.
    pub open spec fn swallows(self, word: Seq<u8>) -> bool {
        spec_is_literal(self.top.name) && word != self.top.name
    }

    /// The state after a closer of the kind `kind`, found at `at`, once the
    /// word before it has been dealt with.
    pub open spec fn close(self, at: LocView, kind: Delim) -> ParseState {
        if self.top.delim != kind {
            self.report(
                Diagnostic::Mismatch {
                    at,
                    closer: kind,
                    name: self.top.name,
                    opener: self.top.delim,
                    opened_at: self.top.loc,
                },
            ).add(escaped(Delimiter(Direction::Open, self.top.delim)))
        } else if self.stack.len() == 0 {
            self.report(Diagnostic::Unmatched { at, closer: kind }).add(
                Tree::Text(seq![Delimiter(Direction::Close, kind).byte()]),
            )
        } else {
            ParseState {
                stack: self.stack.drop_last(),
                top: ElemView {
                    name: self.stack.last().name,
                    delim: self.stack.last().delim,
                    children: self.stack.last().children.push(Tree::Elem(self.top)),
                    loc: self.stack.last().loc,
                },
                errs: self.errs,
            }
        }
    }

    /// The state after the token `token`, found at `at`.
    pub open spec fn step(self, at: LocView, token: TokenView) -> ParseState {
        match token {
            TokenView::Chunk(text) => self.add(Tree::Text(text)),
            TokenView::Tag(word, delimiter) => {
                if self.swallows(word) {
                    self.add(Tree::Text(word)).add(Tree::Text(seq![delimiter.byte()]))
                } else {
                    match delimiter.0 {
                        Direction::Open => ParseState {
                            stack: self.stack.push(self.top),
                            top: ElemView {
                                name: word,
                                delim: delimiter.1,
                                children: Seq::empty(),
                                loc: at,
                            },
                            errs: self.errs,
                        },
                        Direction::Close => if spec_is_literal(self.top.name) {
                            self.close(at, delimiter.1)
                        } else {
                            self.add(Tree::Text(word)).close(at, delimiter.1)
                        },
                    }
                }
            },
        }
    }

    /// The state after the tokens `tokens`, one after the other.
    pub open spec fn run(self, tokens: Seq<(LocView, TokenView)>) -> ParseState
        decreases tokens.len(),
    {
        if tokens.len() == 0 {
            self
        } else {
            self.step(tokens[0].0, tokens[0].1).run(tokens.skip(1))
        }
    }

    /// The elements that are open besides the text as a whole, outermost
    /// first.
    pub open spec fn unterminated(self) -> Seq<ElemView> {
        if self.stack.len() == 0 {
            Seq::empty()
        } else {
            self.stack.skip(1).push(self.top)
        }
    }

    /// The forest at the end of the text. If elements are still open, the
    /// children of the text as a whole are followed by each open element
    /// melted, outermost first.
    pub open spec fn forest(self) -> Seq<Tree> {
        if self.stack.len() == 0 {
            self.top.children
        } else {
            self.stack[0].children + melt_all(self.unterminated())
        }
    }

    /// The repairs at the end of the text. If elements are still open, one
    /// more is on record, for the outermost of them.
    pub open spec fn diagnostics(self) -> Seq<Diagnostic> {
        if self.stack.len() == 0 {
            self.errs
        } else {
            self.errs.push(
                Diagnostic::Unclosed {
                    at: self.unterminated()[0].loc,
                    name: self.unterminated()[0].name,
                    opener: self.unterminated()[0].delim,
                },
            )
        }
    }
}

/// The forest and the repairs that reading `tokens` gives.
pub open spec fn parsed_tokens(tokens: Seq<(LocView, TokenView)>) -> (Seq<Tree>, Seq<Diagnostic>) {
    let end = ParseState::start().run(tokens);
    (end.forest(), end.diagnostics())
}

/// The forest and the repairs that reading the text `s` gives, where `path`
/// is the name of the text in the messages.
pub open spec fn parsed(s: Seq<u8>, path: Seq<char>) -> (Seq<Tree>, Seq<Diagnostic>) {
    parsed_tokens(tokens(s, LocView::start(path)))
}

/// The values of a stack of elements, in order.
pub open spec fn stack_view(stack: Seq<Elem>) -> Seq<ElemView> {
    Seq::new(stack.len(), |i: int| stack[i]@)
}

/// Appends `node` to the children of `top`.
fn add_child(top: &mut Elem, node: Node)
    ensures
        final(top)@ == (ElemView {
            name: old(top)@.name,
            delim: old(top)@.delim,
            children: old(top)@.children.push(node@),
            loc: old(top)@.loc,
        }),
{
    proof {
        lemma_forest_view_push(top.children@, node);
    }
    top.children.push(node);
}

impl Node {
    /// Reads the text `s` into a forest. `path` is the name of the text in
    /// the messages; with an empty name they say `<unknown>` for a place.
    /// Every text is read: what does not fit is repaired, and each repair
    /// gives one message.
    pub fn parse(s: &[u8], path: &str) -> (r: (Vec<Node>, Vec<String>))
        ensures
            forest_view(r.0@) == parsed(s@, path@).0,
            are_shown_as(parsed(s@, path@).1, r.1@),
    {
        proof {
            assert(s.len() == s@.len());
        }
        Node::parse_tokens(Lexer::new(s, Loc::from(path)))
    }

    /// Reads the tokens that `tokens` has yet to hand out into a forest.
    pub fn parse_tokens(tokens: Lexer<'_>) -> (r: (Vec<Node>, Vec<String>))
        requires
            tokens.wf(),
        ensures
            forest_view(r.0@) == parsed_tokens(tokens.pending()).0,
            are_shown_as(parsed_tokens(tokens.pending()).1, r.1@),
    {
        let ghost all = tokens.pending();
        let mut tokens = tokens;
        let mut errs: Vec<String> = Vec::new();
        let mut stack: Vec<Elem> = Vec::new();
        let mut top = Elem {
            name: Blob::default(),
            delim: Delim::Parenthesis,
            children: Vec::new(),
            loc: Loc::default(),
        };
        let ghost mut st = ParseState::start();
        proof {
            lemma_forest_view_empty();
            assert(stack_view(stack@) =~= st.stack);
        }
        loop
            invariant
                tokens.wf(),
                stack_view(stack@) == st.stack,
                top@ == st.top,
                are_shown_as(st.errs, errs@),
                st.run(tokens.pending()) == ParseState::start().run(all),
            ensures
                tokens.pending().len() == 0,
            decreases tokens.pending().len(),
        {
            let ghost before = st;
            match tokens.next() {
                None => {
                    break ;
                },
                Some((loc, token)) => {
                    proof {
                        st = before.step(loc@, token@);
                    }
                    let esc = is_literal(top.name.as_bytes());
                    match token {
                        Token::Chunk(text) => {
                            add_child(&mut top, Node::from(text));
                        },
                        Token::Tag(word, delimiter) => {
                            if esc && !bytes_eq(top.name.as_bytes(), word) {
                                add_child(&mut top, Node::from(word));
                                add_child(
                                    &mut top,
                                    Node::from(delimiter.as_bytes()),
                                );
                            } else {
                                match delimiter {
                                    Delimiter(Direction::Open, kind) => {
                                        stack.push(top);
                                        top = Elem {
                                            name: Blob::from(word),
                                            delim: kind,
                                            children: Vec::new(),
                                            loc: loc,
                                        };
                                        proof {
                                            lemma_forest_view_empty();
                                            assert(stack_view(stack@) =~= st.stack);
                                        }
                                    },
                                    Delimiter(Direction::Close, kind) => {
                                        if !esc {
                                            add_child(&mut top, Node::from(word));
                                        }
                                        if top.delim != kind {
                                            let message = mismatch_message(
                                                &loc,
                                                kind,
                                                top.name.as_bytes(),
                                                top.delim,
                                                &top.loc,
                                            );
                                            proof {
                                                lemma_shown_push(
                                                    before.errs,
                                                    errs@,
                                                    st.errs.last(),
                                                    message,
                                                );
                                                assert(st.errs =~= before.errs.push(
                                                    st.errs.last(),
                                                ));
                                            }
                                            errs.push(message);
                                            let marker = escape_delim(top.delim.open());
                                            add_child(&mut top, marker);
                                        } else {
                                            match stack.pop() {
                                                None => {
                                                    let message = unmatched_message(&loc, kind);
                                                    proof {
                                                        lemma_shown_push(
                                                            before.errs,
                                                            errs@,
                                                            st.errs.last(),
                                                            message,
                                                        );
                                                        assert(st.errs =~= before.errs.push(
                                                            st.errs.last(),
                                                        ));
                                                    }
                                                    errs.push(message);
                                                    add_child(
                                                        &mut top,
                                                        Node::from(
                                                            delimiter.as_bytes(),
                                                        ),
                                                    );
                                                },
                                                Some(parent) => {
                                                    let mut parent = parent;
                                                    add_child(&mut parent, Node::Elem(top));
                                                    top = parent;
                                                    proof {
                                                        assert(stack_view(stack@) =~= st.stack);
                                                    }
                                                },
                                            }
                                        }
                                    },
                                }
                            }
                        },
                    }
                },
            }
        }
        proof {
            assert(st == ParseState::start().run(all));
        }
        if stack.len() == 0 {
            return (top.children, errs);
        }
        let ghost open = st.unterminated();
        let ghost frames = stack@;
        let n = stack.len();
        let message = if n >= 2 {
            unclosed_message(&stack[1].loc, stack[1].name.as_bytes(), stack[1].delim)
        } else {
            unclosed_message(&top.loc, top.name.as_bytes(), top.delim)
        };
        proof {
            assert(stack_view(stack@)[0] == stack@[0]@);
            if n >= 2 {
                assert(stack_view(stack@)[1] == stack@[1]@);
            }
            lemma_shown_push(st.errs, errs@, st.diagnostics().last(), message);
        }
        errs.push(message);
        let mut rev: Vec<Elem> = Vec::new();
        loop
            invariant
                n == frames.len(),
                stack@.len() + rev@.len() == n,
                stack@ =~= frames.subrange(0, stack@.len() as int),
                forall|i: int| 0 <= i < rev@.len() ==> rev@[i] == frames[n - 1 - i],
            ensures
                rev@.len() == n,
            decreases stack@.len(),
        {
            match stack.pop() {
                Some(elem) => {
                    rev.push(elem);
                },
                None => {
                    break ;
                },
            }
        }
        let mut nodes: Vec<Node> = Vec::new();
        proof {
            lemma_forest_view_empty();
            assert(melt_all(open.take(0)) =~= Seq::empty());
        }
        loop
            invariant
                n == frames.len(),
                1 <= n,
                rev@.len() <= n,
                stack_view(frames) == st.stack,
                open == st.stack.skip(1).push(st.top),
                forall|i: int| 0 <= i < rev@.len() ==> rev@[i] == frames[n - 1 - i],
                rev@.len() == n ==> forest_view(nodes@) == Seq::<Tree>::empty(),
                rev@.len() < n ==> forest_view(nodes@) == st.stack[0].children + melt_all(
                    open.take(n - 1 - rev@.len()),
                ),
            ensures
                rev@.len() == 0,
            decreases rev@.len(),
        {
            let ghost k = n - 1 - rev@.len();
            let outermost = rev.len() == n;
            match rev.pop() {
                Some(elem) => {
                    if outermost {
                        proof {
                            assert(st.stack[0].children + melt_all(open.take(0)) =~= elem@.children);
                        }
                        nodes = elem.children;
                    } else {
                        let mut melted = elem.into_text_nodes();
                        proof {
                            lemma_forest_view_concat(nodes@, melted@);
                            assert(open.take(k + 1).drop_last() =~= open.take(k));
                            assert(open.take(k + 1).last() == elem@);
                        }
                        nodes.append(&mut melted);
                    }
                },
                None => {
                    break ;
                },
            }
        }
        let mut melted = top.into_text_nodes();
        proof {
            lemma_forest_view_concat(nodes@, melted@);
            assert(open.take(n - 1) =~= open.drop_last());
        }
        nodes.append(&mut melted);
        (nodes, errs)
    }
}

} // verus!
